//! Polygon fills: scanlines with even-odd parity, and triangles with ordered
//! dithering.
//!
//! Where an edge meets the center of a pixel row is a quotient that rounds, so
//! the fills come in two halves: one lists the rows of a polygon with the edges
//! that cross each of them, the other paints the rows once the caller has said
//! where the edges cross.

use crate::braille_buffer::{ColorIdx, Grid};
use crate::canvas::{
    is_in_cell_of, is_wide, law_paint_colors_its_pixels, law_paint_lights_its_pixels,
    lemma_paint_concat, lemma_paint_push, outline_points, Canvas, Point,
};
use crate::double::{lemma_one, one, Double, LARGEST, MOST_NEGATIVE, ONE};
use crate::order::{ascending, key_ints, law_stable_order, sort_order};
use crate::styler::picks;
use vstd::prelude::*;

verus! {

// -- Rings -----------------------------------------------------------------

/// A ring without the point that closes it.
pub open spec fn open_ring(ring: Seq<Point>) -> Seq<Point> {
    if ring.len() >= 2 && ring.first().same(ring.last()) {
        ring.drop_last()
    } else {
        ring
    }
}

/// The number of points of a ring without the one that closes it.
pub fn open_ring_len(ring: &Vec<Point>) -> (r: usize)
    ensures
        r == open_ring(ring@).len(),
        r <= ring@.len(),
        open_ring(ring@) == ring@.take(r as int),
{
    let n: usize = ring.len();
    if n >= 2 && ring[0].is_same(&ring[n - 1]) {
        assert(ring@.drop_last() =~= ring@.take(n - 1));
        n - 1
    } else {
        assert(ring@ =~= ring@.take(n as int));
        n
    }
}

// -- Scanlines -------------------------------------------------------------

/// An edge between two pixels.
#[derive(Debug, Clone, Copy)]
pub struct Edge {
    pub x0: i32,
    pub y0: i32,
    pub x1: i32,
    pub y1: i32,
}

impl Edge {
    /// Whether the edge crosses the center of a row of pixels.
    pub open spec fn crosses(self, y: int) -> bool {
        (self.y0 <= y < self.y1) || (self.y1 <= y < self.y0)
    }

    fn is_crossing(&self, y: i32) -> (r: bool)
        ensures
            r == self.crosses(y as int),
    {
        (self.y0 <= y && y < self.y1) || (self.y1 <= y && y < self.y0)
    }
}

/// The edge that leaves point `i` of an open ring.
pub open spec fn ring_edge(points: Seq<Point>, i: int) -> Edge {
    let (a, b) = (points[i].pixel(), points[(i + 1) % (points.len() as int)].pixel());
    Edge { x0: a.0 as i32, y0: a.1 as i32, x1: b.0 as i32, y1: b.1 as i32 }
}

/// The edges that leave the first `n` points of an open ring, without the
/// horizontal ones.
pub open spec fn sloped_edges(points: Seq<Point>, n: nat) -> Seq<Edge>
    decreases n,
{
    if n == 0 {
        Seq::empty()
    } else {
        let before = sloped_edges(points, (n - 1) as nat);
        let edge = ring_edge(points, n - 1);
        if edge.y0 != edge.y1 {
            before.push(edge)
        } else {
            before
        }
    }
}

/// The edges of the first `n` rings; a single point has none.
pub open spec fn polygon_edges(rings: Seq<Vec<Point>>, n: nat) -> Seq<Edge>
    decreases n,
{
    if n == 0 {
        Seq::empty()
    } else {
        let points = open_ring(rings[n - 1]@);
        polygon_edges(rings, (n - 1) as nat) + if points.len() < 2 {
            Seq::empty()
        } else {
            sloped_edges(points, points.len())
        }
    }
}

/// The edges that cross a row, in order.
pub open spec fn crossing_edges(edges: Seq<Edge>, y: int) -> Seq<Edge>
    decreases edges.len(),
{
    if edges.len() == 0 {
        Seq::empty()
    } else {
        let before = crossing_edges(edges.drop_last(), y);
        if edges.last().crosses(y) {
            before.push(edges.last())
        } else {
            before
        }
    }
}

/// The top of the edges.
pub open spec fn top_of(edges: Seq<Edge>) -> int
    decreases edges.len(),
{
    if edges.len() == 0 {
        i32::MAX as int
    } else {
        let e = edges.last();
        let m = if e.y0 < e.y1 {
            e.y0 as int
        } else {
            e.y1 as int
        };
        let rest = top_of(edges.drop_last());
        if m < rest {
            m
        } else {
            rest
        }
    }
}

/// The bottom of the edges.
pub open spec fn bottom_of(edges: Seq<Edge>) -> int
    decreases edges.len(),
{
    if edges.len() == 0 {
        i32::MIN as int
    } else {
        let e = edges.last();
        let m = if e.y0 > e.y1 {
            e.y0 as int
        } else {
            e.y1 as int
        };
        let rest = bottom_of(edges.drop_last());
        if m > rest {
            m
        } else {
            rest
        }
    }
}

/// A row of pixels with the edges that cross it.
#[derive(Debug)]
pub struct ScanRow {
    pub y: i32,
    pub edges: Vec<Edge>,
}

/// The first and last row of the picture that the edges may cross.
pub open spec fn row_range(edges: Seq<Edge>, height: int) -> (int, int) {
    let top = top_of(edges);
    let bottom = bottom_of(edges);
    (
        if top > 0 {
            top
        } else {
            0
        },
        if bottom < height - 1 {
            bottom
        } else {
            height - 1
        },
    )
}

/// Whether `rows` are the rows of a polygon with these edges.
pub open spec fn are_rows_of(rows: Seq<ScanRow>, edges: Seq<Edge>, height: int) -> bool {
    let (first, last) = row_range(edges, height);
    &&& rows.len() == if first <= last {
        last - first + 1
    } else {
        0
    }
    &&& forall|i: int|
        0 <= i < rows.len() ==> (#[trigger] rows[i]).y == first + i && rows[i].edges@
            == crossing_edges(edges, first + i)
}

/// The pixels of a row from `left` to `right`.
pub open spec fn span_points(y: int, left: int, right: int) -> Seq<(int, int)> {
    Seq::new(
        (if left <= right {
            right - left + 1
        } else {
            0
        }) as nat,
        |i: int| (left + i, y),
    )
}

/// The pixels of a row between the first `n` pairs of crossings, cut at the
/// sides of the picture.
pub open spec fn even_odd_points(y: int, xs: Seq<int>, width: int, n: nat) -> Seq<(int, int)>
    decreases n,
{
    if n == 0 {
        Seq::empty()
    } else {
        let left = xs[2 * (n - 1)];
        let right = xs[2 * (n - 1) + 1];
        even_odd_points(y, xs, width, (n - 1) as nat) + span_points(
            y,
            if left > 0 {
                left
            } else {
                0
            },
            if right < width - 1 {
                right
            } else {
                width - 1
            },
        )
    }
}

/// Crossings as integers.
pub open spec fn crossing_ints(xs: Seq<i32>) -> Seq<int> {
    Seq::new(xs.len(), |i: int| xs[i] as int)
}

/// The pixels of the first `n` rows of a polygon.
pub open spec fn scan_points(
    rows: Seq<ScanRow>,
    crossings: Seq<Vec<i32>>,
    width: int,
    n: nat,
) -> Seq<(int, int)>
    decreases n,
{
    if n == 0 {
        Seq::empty()
    } else {
        let xs = crossing_ints(crossings[n - 1]@);
        scan_points(rows, crossings, width, (n - 1) as nat) + even_odd_points(
            rows[n - 1].y as int,
            ascending(xs),
            width,
            xs.len() / 2,
        )
    }
}

impl Canvas {
    /// The rows of a polygon within the canvas, each with the edges that cross
    /// it. All rings count together: outer rings and holes.
    pub fn scan_rows(&self, rings: &Vec<Vec<Point>>) -> (r: Vec<ScanRow>)
        requires
            self.wf(),
        ensures
            are_rows_of(r@, polygon_edges(rings@, rings@.len()), self.height as int),
    {
        let edges: Vec<Edge> = collect_edges(rings);
        let (first, last): (i64, i64) = edge_rows(&edges, self.height);
        let mut rows: Vec<ScanRow> = Vec::new();
        let mut y: i64 = first;
        while y <= last
            invariant
                0 <= first <= y,
                first <= i32::MAX,
                last < i32::MAX,
                y <= last + 1 || y == first,
                rows@.len() == y - first,
                forall|i: int|
                    0 <= i < rows@.len() ==> (#[trigger] rows@[i]).y == first + i
                        && rows@[i].edges@ == crossing_edges(edges@, first + i),
            decreases last - y + 1,
        {
            rows.push(ScanRow { y: y as i32, edges: edges_across(&edges, y as i32) });
            y = y + 1;
        }
        rows
    }

    /// Scanline even-odd polygon fill. `crossings` says for each row where its
    /// edges cross it, one entry for each edge, in any order.
    pub fn scanline_polygon_fill(
        &mut self,
        rows: &Vec<ScanRow>,
        crossings: &Vec<Vec<i32>>,
        color: ColorIdx,
    )
        requires
            old(self).wf(),
            crossings@.len() == rows@.len(),
        ensures
            final(self).wf(),
            final(self)@ == old(self)@.paint(
                scan_points(rows@, crossings@, old(self).width as int, rows@.len()),
                color,
                false,
            ),
            final(self).width == old(self).width,
            final(self).height == old(self).height,
    {
        let mut i: usize = 0;
        while i < rows.len()
            invariant
                self.wf(),
                self.width == old(self).width,
                self.height == old(self).height,
                i <= rows@.len(),
                crossings@.len() == rows@.len(),
                self@ == old(self)@.paint(
                    scan_points(rows@, crossings@, old(self).width as int, i as nat),
                    color,
                    false,
                ),
            decreases rows@.len() - i,
        {
            proof {
                let xs = crossing_ints(crossings@[i as int]@);
                lemma_paint_concat(
                    old(self)@,
                    scan_points(rows@, crossings@, old(self).width as int, i as nat),
                    even_odd_points(
                        rows@[i as int].y as int,
                        ascending(xs),
                        old(self).width as int,
                        xs.len() / 2,
                    ),
                    color,
                    false,
                );
            }
            self.fill_even_odd(rows[i].y, &crossings[i], color);
            i = i + 1;
        }
    }

    fn fill_even_odd(&mut self, y: i32, xs: &Vec<i32>, color: ColorIdx)
        requires
            old(self).wf(),
        ensures
            final(self).wf(),
            final(self)@ == old(self)@.paint(
                even_odd_points(
                    y as int,
                    ascending(crossing_ints(xs@)),
                    old(self).width as int,
                    xs@.len() / 2,
                ),
                color,
                false,
            ),
            final(self).width == old(self).width,
            final(self).height == old(self).height,
    {
        let sorted: Vec<i64> = sort_crossings(xs);
        let ghost up = ascending(crossing_ints(xs@));
        let w: i64 = self.width as i64;
        let n: usize = xs.len();
        let pairs: usize = n / 2;
        let mut k: usize = 0;
        proof {
            assert forall|i: int| 0 <= i < up.len() implies #[trigger] sorted@[i] == up[i]
                && i32::MIN <= up[i] <= i32::MAX by {
                assert(sorted@[i] == ascending(crossing_ints(xs@))[i]);
            }
        }
        while k < pairs
            invariant
                self.wf(),
                self.width == old(self).width,
                self.height == old(self).height,
                w == self.width,
                k <= pairs,
                pairs == n / 2,
                n == xs@.len(),
                sorted@.len() == xs@.len(),
                up.len() == xs@.len(),
                forall|i: int|
                    0 <= i < up.len() ==> #[trigger] sorted@[i] == up[i] && i32::MIN <= up[i]
                        <= i32::MAX,
                self@ == old(self)@.paint(
                    even_odd_points(y as int, up, w as int, k as nat),
                    color,
                    false,
                ),
            decreases pairs - k,
        {
            let first: i64 = sorted[2 * k];
            let second: i64 = sorted[2 * k + 1];
            let left: i64 = if first > 0 {
                first
            } else {
                0
            };
            let right: i64 = if second < w - 1 {
                second
            } else {
                w - 1
            };
            proof {
                lemma_paint_concat(
                    old(self)@,
                    even_odd_points(y as int, up, w as int, k as nat),
                    span_points(y as int, left as int, right as int),
                    color,
                    false,
                );
            }
            self.fill_span(y, left, right, color);
            k = k + 1;
        }
    }

    fn fill_span(&mut self, y: i32, left: i64, right: i64, color: ColorIdx)
        requires
            old(self).wf(),
            0 <= left,
            right < i64::MAX,
        ensures
            final(self).wf(),
            final(self)@ == old(self)@.paint(
                span_points(y as int, left as int, right as int),
                color,
                false,
            ),
            final(self).width == old(self).width,
            final(self).height == old(self).height,
    {
        let ghost points = span_points(y as int, left as int, right as int);
        let mut x: i64 = left;
        assert(points.take(0) =~= Seq::empty());
        while x <= right
            invariant
                self.wf(),
                self.width == old(self).width,
                self.height == old(self).height,
                0 <= left <= x,
                x <= right + 1 || x == left,
                right < i64::MAX,
                points == span_points(y as int, left as int, right as int),
                self@ == old(self)@.paint(points.take(x - left), color, false),
            decreases right - x + 1,
        {
            proof {
                let i = x - left;
                assert(points.take(i + 1) =~= points.take(i).push(points[i]));
                lemma_paint_push(old(self)@, points.take(i), points[i], color, false);
            }
            self.mark(x as i128, y as i128, color, false);
            x = x + 1;
        }
        assert(points.take(x - left) =~= points);
    }
}

fn sort_crossings(xs: &Vec<i32>) -> (r: Vec<i64>)
    ensures
        r@.len() == xs@.len(),
        forall|i: int|
            0 <= i < xs@.len() ==> #[trigger] r@[i] == ascending(crossing_ints(xs@))[i]
                && i32::MIN <= ascending(crossing_ints(xs@))[i] <= i32::MAX,
{
    let mut keys: Vec<i64> = Vec::new();
    let mut i: usize = 0;
    while i < xs.len()
        invariant
            i <= xs@.len(),
            keys@.len() == i,
            forall|k: int| 0 <= k < i ==> #[trigger] keys@[k] == xs@[k],
        decreases xs@.len() - i,
    {
        keys.push(xs[i] as i64);
        i = i + 1;
    }
    let ghost ints = crossing_ints(xs@);
    proof {
        assert(key_ints(keys@) =~= ints);
        law_stable_order(ints);
    }
    let order: Vec<usize> = sort_order(&keys);
    let mut sorted: Vec<i64> = Vec::new();
    let mut k: usize = 0;
    while k < order.len()
        invariant
            k <= order@.len(),
            order@.len() == keys@.len(),
            keys@.len() == xs@.len(),
            sorted@.len() == k,
            key_ints(keys@) == ints,
            ints == crossing_ints(xs@),
            crate::order::index_ints(order@) == crate::order::stable_order(ints),
            forall|i: int| 0 <= i < order@.len() ==> #[trigger] order@[i] < keys@.len(),
            forall|j: int| 0 <= j < keys@.len() ==> #[trigger] keys@[j] == xs@[j],
            forall|j: int|
                0 <= j < k ==> #[trigger] sorted@[j] == ascending(ints)[j] && i32::MIN <= ascending(
                    ints,
                )[j] <= i32::MAX,
        decreases order@.len() - k,
    {
        proof {
            let o = crate::order::index_ints(order@);
            assert(o[k as int] == order@[k as int]);
            assert(ascending(ints)[k as int] == ints[o[k as int]]);
        }
        sorted.push(keys[order[k]]);
        k = k + 1;
    }
    sorted
}

fn collect_edges(rings: &Vec<Vec<Point>>) -> (r: Vec<Edge>)
    ensures
        r@ == polygon_edges(rings@, rings@.len()),
{
    let mut edges: Vec<Edge> = Vec::new();
    let mut k: usize = 0;
    while k < rings.len()
        invariant
            k <= rings@.len(),
            edges@ == polygon_edges(rings@, k as nat),
        decreases rings@.len() - k,
    {
        let ring: &Vec<Point> = &rings[k];
        let n: usize = open_ring_len(ring);
        let ghost points = open_ring(ring@);
        let ghost before = edges@;
        if n >= 2 {
            let mut i: usize = 0;
            assert(before + sloped_edges(points, 0) =~= before);
            while i < n
                invariant
                    i <= n,
                    n >= 2,
                    n == points.len(),
                    points == ring@.take(n as int),
                    n <= ring@.len(),
                    edges@ == before + sloped_edges(points, i as nat),
                decreases n - i,
            {
                let next: usize = if i + 1 < n {
                    i + 1
                } else {
                    0
                };
                proof {
                    if i + 1 < n {
                        vstd::arithmetic::div_mod::lemma_small_mod((i + 1) as nat, n as nat);
                    } else {
                        vstd::arithmetic::div_mod::lemma_mod_self_0(n as int);
                    }
                }
                let (x0, y0): (i32, i32) = ring[i].to_pixel();
                let (x1, y1): (i32, i32) = ring[next].to_pixel();
                let edge: Edge = Edge { x0, y0, x1, y1 };
                assert(edge == ring_edge(points, i as int));
                if y0 != y1 {
                    edges.push(edge);
                    assert(edges@ =~= before + sloped_edges(points, i as nat).push(edge));
                }
                i = i + 1;
            }
        } else {
            assert(before + Seq::<Edge>::empty() =~= before);
        }
        k = k + 1;
    }
    edges
}

fn edge_rows(edges: &Vec<Edge>, height: usize) -> (r: (i64, i64))
    requires
        height <= i32::MAX,
    ensures
        (r.0 as int, r.1 as int) == row_range(edges@, height as int),
        0 <= r.0 <= i32::MAX,
        r.1 < i32::MAX,
{
    let mut top: i32 = i32::MAX;
    let mut bottom: i32 = i32::MIN;
    let mut i: usize = 0;
    assert(edges@.take(0) =~= Seq::empty());
    while i < edges.len()
        invariant
            i <= edges@.len(),
            top == top_of(edges@.take(i as int)),
            bottom == bottom_of(edges@.take(i as int)),
        decreases edges@.len() - i,
    {
        assert(edges@.take(i + 1).drop_last() =~= edges@.take(i as int));
        let e: Edge = edges[i];
        let (low, high): (i32, i32) = if e.y0 < e.y1 {
            (e.y0, e.y1)
        } else {
            (e.y1, e.y0)
        };
        if low < top {
            top = low;
        }
        if high > bottom {
            bottom = high;
        }
        i = i + 1;
    }
    assert(edges@.take(i as int) =~= edges@);
    let first: i64 = if top > 0 {
        top as i64
    } else {
        0
    };
    let last: i64 = if (bottom as i64) < height as i64 - 1 {
        bottom as i64
    } else {
        height as i64 - 1
    };
    (first, last)
}

fn edges_across(edges: &Vec<Edge>, y: i32) -> (r: Vec<Edge>)
    ensures
        r@ == crossing_edges(edges@, y as int),
{
    let mut across: Vec<Edge> = Vec::new();
    let mut i: usize = 0;
    assert(edges@.take(0) =~= Seq::empty());
    while i < edges.len()
        invariant
            i <= edges@.len(),
            across@ == crossing_edges(edges@.take(i as int), y as int),
        decreases edges@.len() - i,
    {
        assert(edges@.take(i + 1).drop_last() =~= edges@.take(i as int));
        if edges[i].is_crossing(y) {
            across.push(edges[i]);
        }
        i = i + 1;
    }
    assert(edges@.take(i as int) =~= edges@);
    across
}

// -- Parity ----------------------------------------------------------------

proof fn lemma_crossing_concat(a: Seq<Edge>, b: Seq<Edge>, y: int)
    ensures
        crossing_edges(a + b, y).len() == crossing_edges(a, y).len() + crossing_edges(b, y).len(),
    decreases b.len(),
{
    if b.len() == 0 {
        assert(a + b =~= a);
    } else {
        assert((a + b).drop_last() =~= a + b.drop_last());
        lemma_crossing_concat(a, b.drop_last(), y);
    }
}

/// Along a ring, an edge crosses a row exactly where it changes sides.
proof fn lemma_ring_parity(points: Seq<Point>, y: int, n: nat)
    requires
        n <= points.len(),
        points.len() >= 1,
    ensures
        (crossing_edges(sloped_edges(points, n), y).len() % 2 == 1) == ((points[0].pixel().1 <= y)
            != (points[n as int % points.len() as int].pixel().1 <= y)),
    decreases n,
{
    let len = points.len() as int;
    if n == 0 {
        vstd::arithmetic::div_mod::lemma_small_mod(0, points.len());
    } else {
        let m = (n - 1) as nat;
        lemma_ring_parity(points, y, m);
        vstd::arithmetic::div_mod::lemma_small_mod(m, points.len());
        let before = sloped_edges(points, m);
        let edge = ring_edge(points, n - 1);
        if edge.y0 != edge.y1 {
            assert(before.push(edge).drop_last() =~= before);
        }
    }
}

/// A ring adds an even number of crossings.
proof fn lemma_ring_keeps_parity(before: Seq<Edge>, points: Seq<Point>, y: int)
    requires
        crossing_edges(before, y).len() % 2 == 0,
    ensures
        crossing_edges(
            before + if points.len() < 2 {
                Seq::empty()
            } else {
                sloped_edges(points, points.len())
            },
            y,
        ).len() % 2 == 0,
{
    if points.len() < 2 {
        assert(before + Seq::<Edge>::empty() =~= before);
    } else {
        lemma_crossing_concat(before, sloped_edges(points, points.len()), y);
        lemma_ring_parity(points, y, points.len());
        vstd::arithmetic::div_mod::lemma_mod_self_0(points.len() as int);
    }
}

/// Every row is crossed an even number of times, so that no crossing is left
/// without its pair.
pub proof fn law_crossings_come_in_pairs(rings: Seq<Vec<Point>>, y: int, n: nat)
    requires
        n <= rings.len(),
    ensures
        crossing_edges(polygon_edges(rings, n), y).len() % 2 == 0,
    decreases n,
{
    if n > 0 {
        law_crossings_come_in_pairs(rings, y, (n - 1) as nat);
        lemma_ring_keeps_parity(
            polygon_edges(rings, (n - 1) as nat),
            open_ring(rings[n - 1]@),
            y,
        );
    }
}

// -- Triangulated fills ----------------------------------------------------

/// The points of a ring at which it turns, by the flags in `turns`.
pub open spec fn turning_points(points: Seq<Point>, turns: Seq<bool>, n: nat) -> Seq<Point>
    decreases n,
{
    if n == 0 {
        Seq::empty()
    } else {
        let before = turning_points(points, turns, (n - 1) as nat);
        if turns[n - 1] {
            before.push(points[n - 1])
        } else {
            before
        }
    }
}

/// An open ring without the points at which it goes straight on; as it is
/// where that would leave no area.
pub open spec fn without_collinear(points: Seq<Point>, turns: Seq<bool>) -> Seq<Point> {
    let out = turning_points(points, turns, points.len());
    if points.len() <= 3 || out.len() < 3 {
        points
    } else {
        out
    }
}

/// Remove strictly collinear middle points from a ring, after the point that
/// closes it. `turns` says of each point of the open ring whether the cross
/// product of the two edges that meet there differs from zero; rings of up to
/// three points need none.
pub fn remove_collinear(ring: &Vec<Point>, turns: &Vec<bool>) -> (r: Vec<Point>)
    requires
        open_ring(ring@).len() > 3 ==> turns@.len() >= open_ring(ring@).len(),
    ensures
        r@ == without_collinear(open_ring(ring@), turns@),
{
    let n: usize = open_ring_len(ring);
    let ghost points = open_ring(ring@);
    let mut all: Vec<Point> = Vec::new();
    let mut i: usize = 0;
    assert(points.take(0) =~= Seq::empty());
    while i < n
        invariant
            i <= n,
            n == points.len(),
            n <= ring@.len(),
            points == ring@.take(n as int),
            all@ == points.take(i as int),
        decreases n - i,
    {
        all.push(ring[i]);
        assert(all@ =~= points.take(i + 1));
        i = i + 1;
    }
    assert(points.take(i as int) =~= points);
    if n <= 3 {
        return all;
    }
    let mut out: Vec<Point> = Vec::new();
    let mut k: usize = 0;
    while k < n
        invariant
            k <= n,
            n == points.len(),
            all@ == points,
            turns@.len() >= n,
            out@ == turning_points(points, turns@, k as nat),
        decreases n - k,
    {
        if turns[k] {
            out.push(all[k]);
        }
        k = k + 1;
    }
    if out.len() < 3 {
        all
    } else {
        out
    }
}

/// A polygon as a triangulation takes it: the points of all its rings, and
/// where the holes start among them.
pub struct Mesh {
    pub vertices: Vec<Point>,
    pub holes: Vec<usize>,
}

/// What a [`Mesh`] holds.
pub struct MeshView {
    pub vertices: Seq<Point>,
    pub holes: Seq<int>,
}

impl View for Mesh {
    type V = MeshView;

    open spec fn view(&self) -> MeshView {
        MeshView {
            vertices: self.vertices@,
            holes: Seq::new(self.holes@.len(), |i: int| self.holes@[i] as int),
        }
    }
}

/// The turn flags of a ring.
pub open spec fn turns_of(turns: Seq<Vec<bool>>, i: int) -> Seq<bool> {
    if 0 <= i < turns.len() {
        turns[i]@
    } else {
        Seq::empty()
    }
}

/// The mesh of the first `n` rings of a polygon, the first of which is its
/// outline; `None` where the outline has no area. Holes without area are left
/// out.
pub open spec fn mesh_of(rings: Seq<Vec<Point>>, turns: Seq<Vec<bool>>, n: nat) -> Option<MeshView>
    decreases n,
{
    if n == 0 {
        Some(MeshView { vertices: Seq::empty(), holes: Seq::empty() })
    } else {
        match mesh_of(rings, turns, (n - 1) as nat) {
            None => None,
            Some(before) => {
                let points = without_collinear(open_ring(rings[n - 1]@), turns_of(turns, n - 1));
                if points.len() < 3 {
                    if n == 1 {
                        None
                    } else {
                        Some(before)
                    }
                } else {
                    Some(
                        MeshView {
                            vertices: before.vertices + points,
                            holes: if n == 1 {
                                before.holes
                            } else {
                                before.holes.push(before.vertices.len() as int)
                            },
                        },
                    )
                }
            },
        }
    }
}

/// Whether there is a turn flag for each point that needs one.
pub open spec fn turns_cover(rings: Seq<Vec<Point>>, turns: Seq<Vec<bool>>) -> bool {
    forall|i: int|
        0 <= i < rings.len() && open_ring(#[trigger] rings[i]@).len() > 3 ==> turns_of(
            turns,
            i,
        ).len() >= open_ring(rings[i]@).len()
}

/// The mesh of a polygon defined by rings (outer ring + optional hole rings).
pub fn polygon_mesh(rings: &Vec<Vec<Point>>, turns: &Vec<Vec<bool>>) -> (r: Option<Mesh>)
    requires
        turns_cover(rings@, turns@),
    ensures
        match r {
            Some(mesh) => mesh_of(rings@, turns@, rings@.len()) == Some(mesh@),
            None => mesh_of(rings@, turns@, rings@.len()) is None,
        },
{
    let none: Vec<bool> = Vec::new();
    let mut mesh: Mesh = Mesh { vertices: Vec::new(), holes: Vec::new() };
    let mut i: usize = 0;
    assert(mesh@.holes =~= Seq::empty());
    while i < rings.len()
        invariant
            i <= rings@.len(),
            none@.len() == 0,
            turns_cover(rings@, turns@),
            mesh_of(rings@, turns@, i as nat) == Some(mesh@),
        decreases rings@.len() - i,
    {
        let flags: &Vec<bool> = if i < turns.len() {
            &turns[i]
        } else {
            &none
        };
        assert(turns_of(turns@, i as int) =~= flags@);
        let points: Vec<Point> = remove_collinear(&rings[i], flags);
        let ghost before = mesh@;
        if points.len() < 3 {
            if i == 0 {
                proof {
                    lemma_mesh_stays_none(rings@, turns@, 1, rings@.len());
                }
                return None;
            }
        } else {
            if i > 0 {
                let start: usize = mesh.vertices.len();
                mesh.holes.push(start);
                assert(mesh@.holes =~= before.holes.push(before.vertices.len() as int));
            }
            append_points(&mut mesh.vertices, &points);
            assert(mesh@.vertices == before.vertices + points@);
        }
        i = i + 1;
    }
    Some(mesh)
}

proof fn lemma_mesh_stays_none(
    rings: Seq<Vec<Point>>,
    turns: Seq<Vec<bool>>,
    m: nat,
    n: nat,
)
    requires
        m <= n,
        mesh_of(rings, turns, m) is None,
    ensures
        mesh_of(rings, turns, n) is None,
    decreases n,
{
    if m < n {
        lemma_mesh_stays_none(rings, turns, m, (n - 1) as nat);
    }
}

fn append_points(to: &mut Vec<Point>, points: &Vec<Point>)
    ensures
        final(to)@ == old(to)@ + points@,
{
    let mut i: usize = 0;
    assert(old(to)@ + points@.take(0) =~= old(to)@);
    while i < points.len()
        invariant
            i <= points@.len(),
            to@ == old(to)@ + points@.take(i as int),
        decreases points@.len() - i,
    {
        to.push(points[i]);
        assert(to@ =~= old(to)@ + points@.take(i + 1));
        i = i + 1;
    }
    assert(points@.take(i as int) =~= points@);
}

/// What to do with the outcome of a triangulation.
#[derive(Clone, Copy, Debug, PartialEq, Eq, Structural)]
pub enum FillStep {
    /// Paint the triangles; the fill has succeeded.
    Rasterize,
    /// Try again with the outer ring alone.
    RetryOuter,
    /// The polygon cannot be filled.
    GiveUp,
}

/// The step after a triangulation of `mesh`: `found` says whether it gave any
/// triangle. A polygon with holes gets a second try without them.
pub open spec fn step_after(found: bool, mesh: MeshView) -> FillStep {
    if found {
        FillStep::Rasterize
    } else if mesh.holes.len() > 0 {
        FillStep::RetryOuter
    } else {
        FillStep::GiveUp
    }
}

impl Mesh {
    pub fn next_step(&self, found: bool) -> (r: FillStep)
        ensures
            r == step_after(found, self@),
    {
        if found {
            FillStep::Rasterize
        } else if self.holes.len() > 0 {
            FillStep::RetryOuter
        } else {
            FillStep::GiveUp
        }
    }
}

/// The mesh of the outer ring of a polygon alone, without its holes.
pub fn outer_mesh(rings: &Vec<Vec<Point>>, turns: &Vec<Vec<bool>>) -> (r: Mesh)
    requires
        rings@.len() > 0,
        turns_cover(rings@, turns@),
    ensures
        r@.vertices == outer_vertices(rings@, turns@),
        r@.holes.len() == 0,
{
    assert(open_ring(rings@[0]@).len() > 3 ==> turns_of(turns@, 0).len() >= open_ring(
        rings@[0]@,
    ).len());
    let none: Vec<bool> = Vec::new();
    let flags: &Vec<bool> = if turns.len() > 0 {
        &turns[0]
    } else {
        &none
    };
    assert(turns_of(turns@, 0) =~= flags@);
    Mesh { vertices: remove_collinear(&rings[0], flags), holes: Vec::new() }
}

/// Whether a polygon of this opacity has any pixel.
pub open spec fn visible(opacity: Double) -> bool {
    opacity.nan() || opacity.value() > 0
}

pub fn is_visible(opacity: &Double) -> (r: bool)
    ensures
        r == visible(*opacity),
{
    let zero: Double = Double::from_u64(0);
    proof {
        vstd::arithmetic::mul::lemma_mul_basics(one());
    }
    !opacity.is_at_most(&zero)
}

/// A triangle that a polygon was cut into.
#[derive(Clone, Copy, Debug)]
pub struct Triangle {
    pub a: Point,
    pub b: Point,
    pub c: Point,
}

/// How a polygon was cut into triangles: three places among the vertices of its
/// mesh for each of them. `whole` comes from the mesh of all rings, `outer` from
/// that of the outer ring alone, which is only looked at where `whole` is empty.
pub struct Cut {
    pub whole: Vec<usize>,
    pub outer: Vec<usize>,
}

/// The triangles with their corners at these places, three for each; places
/// that are left over make none.
pub open spec fn triangles_at(vertices: Seq<Point>, places: Seq<usize>) -> Seq<Triangle> {
    Seq::new(
        places.len() / 3,
        |k: int|
            Triangle {
                a: vertices[places[3 * k] as int],
                b: vertices[places[3 * k + 1] as int],
                c: vertices[places[3 * k + 2] as int],
            },
    )
}

/// Whether all places are among `n` vertices.
pub open spec fn are_places(places: Seq<usize>, n: nat) -> bool {
    forall|i: int| 0 <= i < places.len() ==> (#[trigger] places[i]) < n
}

/// The vertices of the outer ring of a polygon.
pub open spec fn outer_vertices(rings: Seq<Vec<Point>>, turns: Seq<Vec<bool>>) -> Seq<Point> {
    without_collinear(open_ring(rings[0]@), turns_of(turns, 0))
}

/// The triangles of a polygon; `None` where it cannot be filled.
pub open spec fn cut_polygon(
    rings: Seq<Vec<Point>>,
    turns: Seq<Vec<bool>>,
    whole: Seq<usize>,
    outer: Seq<usize>,
) -> Option<Seq<Triangle>> {
    match mesh_of(rings, turns, rings.len()) {
        None => None,
        Some(mesh) => match step_after(whole.len() > 0, mesh) {
            FillStep::Rasterize => Some(triangles_at(mesh.vertices, whole)),
            FillStep::RetryOuter => if outer.len() > 0 {
                Some(triangles_at(outer_vertices(rings, turns), outer))
            } else {
                None
            },
            FillStep::GiveUp => None,
        },
    }
}

/// Whether the places of a cut are places of the meshes that were cut.
pub open spec fn cut_fits(
    rings: Seq<Vec<Point>>,
    turns: Seq<Vec<bool>>,
    whole: Seq<usize>,
    outer: Seq<usize>,
) -> bool {
    match mesh_of(rings, turns, rings.len()) {
        None => true,
        Some(mesh) => {
            &&& are_places(whole, mesh.vertices.len())
            &&& step_after(whole.len() > 0, mesh) is RetryOuter ==> are_places(
                outer,
                outer_vertices(rings, turns).len(),
            )
        },
    }
}

fn collect_triangles(vertices: &Vec<Point>, places: &Vec<usize>) -> (r: Vec<Triangle>)
    requires
        are_places(places@, vertices@.len()),
    ensures
        r@ == triangles_at(vertices@, places@),
{
    let total: usize = places.len();
    let count: usize = total / 3;
    let mut out: Vec<Triangle> = Vec::new();
    let mut k: usize = 0;
    while k < count
        invariant
            k <= count,
            total == places@.len(),
            count == total / 3,
            are_places(places@, vertices@.len()),
            out@ == triangles_at(vertices@, places@).take(k as int),
        decreases count - k,
    {
        let a: Point = vertices[places[3 * k]];
        let b: Point = vertices[places[3 * k + 1]];
        let c: Point = vertices[places[3 * k + 2]];
        out.push(Triangle { a, b, c });
        k = k + 1;
        assert(out@ =~= triangles_at(vertices@, places@).take(k as int));
    }
    assert(triangles_at(vertices@, places@).take(k as int) =~= triangles_at(vertices@, places@));
    out
}

proof fn lemma_holes_need_an_outline(rings: Seq<Vec<Point>>, turns: Seq<Vec<bool>>, n: nat)
    ensures
        n <= 1 ==> (mesh_of(rings, turns, n) matches Some(mesh) ==> mesh.holes.len() == 0),
{
    reveal_with_fuel(mesh_of, 3);
}

/// The triangles of a polygon: those of the cut of all its rings, or, where
/// that found none and there are holes, those of the cut without the holes.
pub fn polygon_triangles(
    rings: &Vec<Vec<Point>>,
    turns: &Vec<Vec<bool>>,
    cut: &Cut,
) -> (r: Option<Vec<Triangle>>)
    requires
        turns_cover(rings@, turns@),
        cut_fits(rings@, turns@, cut.whole@, cut.outer@),
    ensures
        match r {
            Some(triangles) => cut_polygon(rings@, turns@, cut.whole@, cut.outer@) == Some(
                triangles@,
            ),
            None => cut_polygon(rings@, turns@, cut.whole@, cut.outer@) is None,
        },
{
    match polygon_mesh(rings, turns) {
        None => None,
        Some(mesh) => match mesh.next_step(cut.whole.len() > 0) {
            FillStep::Rasterize => Some(collect_triangles(&mesh.vertices, &cut.whole)),
            FillStep::RetryOuter => {
                proof {
                    lemma_holes_need_an_outline(rings@, turns@, rings@.len());
                }
                if cut.outer.len() > 0 {
                    let outer: Mesh = outer_mesh(rings, turns);
                    Some(collect_triangles(&outer.vertices, &cut.outer))
                } else {
                    None
                }
            },
            FillStep::GiveUp => None,
        },
    }
}

// -- Triangles -------------------------------------------------------------

/// Whether the edge between two points crosses the center of a row.
pub open spec fn spans_row(a: Point, b: Point, y: int) -> bool {
    let half = (2 * y + 1) * one();
    &&& !a.y.nan()
    &&& !b.y.nan()
    &&& (2 * a.y.value() <= half && 2 * b.y.value() > half) || (2 * b.y.value() <= half && 2
        * a.y.value() > half)
}

/// The sides of a triangle that cross the center of a row, in order.
pub open spec fn sides_across(a: Point, b: Point, c: Point, y: int) -> Seq<(Point, Point)> {
    (if spans_row(a, b, y) {
        seq![(a, b)]
    } else {
        Seq::empty()
    }) + (if spans_row(b, c, y) {
        seq![(b, c)]
    } else {
        Seq::empty()
    }) + (if spans_row(c, a, y) {
        seq![(c, a)]
    } else {
        Seq::empty()
    })
}

/// A row of pixels with the sides of a triangle that cross it.
pub struct TriangleRow {
    pub y: i32,
    pub sides: Vec<(Point, Point)>,
}

/// The ceiling of a number as a cast gives it.
pub open spec fn ceil_cast(d: Double) -> int {
    if d.nan() {
        0
    } else {
        crate::double::saturated_i32(d.ceil())
    }
}

/// The floor of a number as a cast gives it.
pub open spec fn floor_cast(d: Double) -> int {
    if d.nan() {
        0
    } else {
        crate::double::saturated_i32(d.floor())
    }
}

/// The first and last row of the picture that a triangle may touch.
pub open spec fn triangle_range(a: Point, b: Point, c: Point, height: int) -> (int, int) {
    let top = ceil_cast(a.y.lesser(b.y).lesser(c.y));
    let bottom = floor_cast(a.y.greater(b.y).greater(c.y));
    (
        if top > 0 {
            top
        } else {
            0
        },
        if bottom < height - 1 {
            bottom
        } else {
            height - 1
        },
    )
}

/// Whether `rows` are the rows of a triangle.
pub open spec fn are_triangle_rows(
    rows: Seq<TriangleRow>,
    a: Point,
    b: Point,
    c: Point,
    height: int,
) -> bool {
    let (first, last) = triangle_range(a, b, c, height);
    &&& rows.len() == if first <= last {
        last - first + 1
    } else {
        0
    }
    &&& forall|i: int|
        0 <= i < rows.len() ==> (#[trigger] rows[i]).y == first + i && rows[i].sides@
            == sides_across(a, b, c, first + i)
}

/// The smallest and largest of the crossings of a row; where there are none,
/// the largest number and the most negative one.
pub open spec fn extent(crossings: Seq<Double>) -> (Double, Double)
    decreases crossings.len(),
{
    if crossings.len() == 0 {
        (Double { bits: LARGEST }, Double { bits: MOST_NEGATIVE })
    } else {
        let (low, high) = extent(crossings.drop_last());
        (low.lesser(crossings.last()), high.greater(crossings.last()))
    }
}

/// The threshold of a pixel in sixteenths: a 4×4 Bayer matrix.
pub open spec fn bayer(x: int, y: int) -> int {
    let (r, c) = (y % 4, x % 4);
    if r == 0 {
        if c == 0 {
            0
        } else if c == 1 {
            8
        } else if c == 2 {
            2
        } else {
            10
        }
    } else if r == 1 {
        if c == 0 {
            12
        } else if c == 1 {
            4
        } else if c == 2 {
            14
        } else {
            6
        }
    } else if r == 2 {
        if c == 0 {
            3
        } else if c == 1 {
            11
        } else if c == 2 {
            1
        } else {
            9
        }
    } else {
        if c == 0 {
            15
        } else if c == 1 {
            7
        } else if c == 2 {
            13
        } else {
            5
        }
    }
}

/// Whether a pixel is painted at this opacity.
pub open spec fn dither_keeps(opacity: Double, x: int, y: int) -> bool {
    (!opacity.nan() && opacity.value() >= one()) || opacity.above_sixteenths(bayer(x, y))
}

/// A fill of greater opacity paints every pixel that one of lesser opacity
/// paints.
pub proof fn law_greater_opacity_paints_more(lesser: Double, greater: Double, x: int, y: int)
    requires
        lesser.at_most(greater),
        dither_keeps(lesser, x, y),
    ensures
        dither_keeps(greater, x, y),
{
}

/// A fill of opacity 1 paints every pixel, one of opacity 0 none.
pub proof fn law_opacity_goes_from_nothing_to_solid(x: int, y: int)
    ensures
        dither_keeps(Double { bits: ONE }, x, y),
        !dither_keeps(Double { bits: 0 }, x, y),
        visible(Double { bits: ONE }),
        !visible(Double { bits: 0 }),
{
    lemma_one();
    crate::double::lemma_magnitude_order(0, 0);
    let k = bayer(x, y);
    assert(0 <= k < 16);
    assert(0 <= k * one()) by (nonlinear_arith)
        requires
            0 <= k,
            one() > 0,
    ;
}

/// The pixels of the first `n` places of a row that are painted.
pub open spec fn dither_points(y: int, left: int, n: nat, opacity: Double) -> Seq<(int, int)>
    decreases n,
{
    if n == 0 {
        Seq::empty()
    } else {
        let x = left + n - 1;
        let before = dither_points(y, left, (n - 1) as nat, opacity);
        if dither_keeps(opacity, x, y) {
            before.push((x, y))
        } else {
            before
        }
    }
}

/// The pixels of a row of a triangle: those between its crossings, within the
/// picture, as far as the opacity keeps them.
pub open spec fn row_points(
    y: int,
    crossings: Seq<Double>,
    width: int,
    opacity: Double,
) -> Seq<(int, int)> {
    let (low, high) = extent(crossings);
    let left = if ceil_cast(low) > 0 {
        ceil_cast(low)
    } else {
        0
    };
    let right = if floor_cast(high) < width - 1 {
        floor_cast(high)
    } else {
        width - 1
    };
    if high.below(low) || left > right {
        Seq::empty()
    } else {
        dither_points(y, left, (right - left + 1) as nat, opacity)
    }
}

/// The pixels of the first `n` rows of a triangle.
pub open spec fn triangle_points(
    rows: Seq<TriangleRow>,
    crossings: Seq<Vec<Double>>,
    width: int,
    opacity: Double,
    n: nat,
) -> Seq<(int, int)>
    decreases n,
{
    if n == 0 {
        Seq::empty()
    } else {
        triangle_points(rows, crossings, width, opacity, (n - 1) as nat) + row_points(
            rows[n - 1].y as int,
            crossings[n - 1]@,
            width,
            opacity,
        )
    }
}

/// The pixels of `n` rows that follow each other from row `first` on.
pub open spec fn consecutive_points(
    first: int,
    crossings: Seq<Vec<Double>>,
    width: int,
    opacity: Double,
    n: nat,
) -> Seq<(int, int)>
    decreases n,
{
    if n == 0 {
        Seq::empty()
    } else {
        consecutive_points(first, crossings, width, opacity, (n - 1) as nat) + row_points(
            first + n - 1,
            crossings[n - 1]@,
            width,
            opacity,
        )
    }
}

/// How many rows of the picture a triangle may touch.
pub open spec fn row_count(t: Triangle, height: int) -> nat {
    let (first, last) = triangle_range(t.a, t.b, t.c, height);
    if first <= last {
        (last - first + 1) as nat
    } else {
        0
    }
}

/// Whether there is an entry for each row of each triangle.
pub open spec fn crossings_fit(
    triangles: Seq<Triangle>,
    crossings: Seq<Vec<Vec<Double>>>,
    height: int,
) -> bool {
    &&& crossings.len() == triangles.len()
    &&& forall|k: int|
        0 <= k < triangles.len() ==> (#[trigger] crossings[k])@.len() == row_count(
            triangles[k],
            height,
        )
}

/// The pixels of the first `n` triangles of a polygon.
pub open spec fn polygon_points(
    triangles: Seq<Triangle>,
    crossings: Seq<Vec<Vec<Double>>>,
    width: int,
    height: int,
    opacity: Double,
    n: nat,
) -> Seq<(int, int)>
    decreases n,
{
    if n == 0 {
        Seq::empty()
    } else {
        let t = triangles[n - 1];
        polygon_points(triangles, crossings, width, height, opacity, (n - 1) as nat)
            + consecutive_points(
            triangle_range(t.a, t.b, t.c, height).0,
            crossings[n - 1]@,
            width,
            opacity,
            row_count(t, height),
        )
    }
}

proof fn lemma_denser_row(
    y: int,
    left: int,
    n: nat,
    lesser: Double,
    greater: Double,
    p: (int, int),
)
    requires
        lesser.at_most(greater),
    ensures
        dither_points(y, left, n, lesser).contains(p) ==> dither_points(
            y,
            left,
            n,
            greater,
        ).contains(p),
        lesser.value() >= one() ==> dither_points(y, left, n, lesser) == dither_points(
            y,
            left,
            n,
            greater,
        ),
    decreases n,
{
    if n > 0 {
        lemma_denser_row(y, left, (n - 1) as nat, lesser, greater, p);
        let here = (left + n - 1, y);
        let a = dither_points(y, left, (n - 1) as nat, lesser);
        let b = dither_points(y, left, (n - 1) as nat, greater);
        lemma_push_contains(a, here, p);
        lemma_push_contains(b, here, p);
        if dither_keeps(lesser, here.0, y) {
            law_greater_opacity_paints_more(lesser, greater, here.0, y);
        }
    }
}

proof fn lemma_push_contains(s: Seq<(int, int)>, q: (int, int), p: (int, int))
    ensures
        s.push(q).contains(p) <==> s.contains(p) || q == p,
{
    if s.contains(p) {
        let i = choose|i: int| 0 <= i < s.len() && s[i] == p;
        assert(s.push(q)[i] == p);
    }
    assert(s.push(q)[s.len() as int] == q);
}

proof fn lemma_sum_contains(a: Seq<(int, int)>, b: Seq<(int, int)>, p: (int, int))
    ensures
        (a + b).contains(p) <==> a.contains(p) || b.contains(p),
{
    if a.contains(p) {
        let i = choose|i: int| 0 <= i < a.len() && a[i] == p;
        assert((a + b)[i] == p);
    }
    if b.contains(p) {
        let i = choose|i: int| 0 <= i < b.len() && b[i] == p;
        assert((a + b)[a.len() + i] == p);
    }
}

proof fn lemma_denser_triangle(
    first: int,
    crossings: Seq<Vec<Double>>,
    width: int,
    lesser: Double,
    greater: Double,
    n: nat,
    p: (int, int),
)
    requires
        lesser.at_most(greater),
    ensures
        consecutive_points(first, crossings, width, lesser, n).contains(p) ==> consecutive_points(
            first,
            crossings,
            width,
            greater,
            n,
        ).contains(p),
        lesser.value() >= one() ==> consecutive_points(first, crossings, width, lesser, n)
            == consecutive_points(first, crossings, width, greater, n),
    decreases n,
{
    if n > 0 {
        let m = (n - 1) as nat;
        lemma_denser_triangle(first, crossings, width, lesser, greater, m, p);
        let xs = crossings[n - 1]@;
        let y = first + n - 1;
        let (low, high) = extent(xs);
        let left = if ceil_cast(low) > 0 {
            ceil_cast(low)
        } else {
            0
        };
        let right = if floor_cast(high) < width - 1 {
            floor_cast(high)
        } else {
            width - 1
        };
        if left <= right {
            lemma_denser_row(y, left, (right - left + 1) as nat, lesser, greater, p);
        }
        lemma_sum_contains(
            consecutive_points(first, crossings, width, lesser, m),
            row_points(y, xs, width, lesser),
            p,
        );
        lemma_sum_contains(
            consecutive_points(first, crossings, width, greater, m),
            row_points(y, xs, width, greater),
            p,
        );
    }
}

proof fn lemma_denser_polygon(
    triangles: Seq<Triangle>,
    crossings: Seq<Vec<Vec<Double>>>,
    width: int,
    height: int,
    lesser: Double,
    greater: Double,
    n: nat,
    p: (int, int),
)
    requires
        lesser.at_most(greater),
    ensures
        polygon_points(triangles, crossings, width, height, lesser, n).contains(p)
            ==> polygon_points(triangles, crossings, width, height, greater, n).contains(p),
        lesser.value() >= one() ==> polygon_points(triangles, crossings, width, height, lesser, n)
            == polygon_points(triangles, crossings, width, height, greater, n),
    decreases n,
{
    if n > 0 {
        let m = (n - 1) as nat;
        let t = triangles[n - 1];
        let first = triangle_range(t.a, t.b, t.c, height).0;
        let rows = row_count(t, height);
        let xs = crossings[n - 1]@;
        lemma_denser_polygon(triangles, crossings, width, height, lesser, greater, m, p);
        lemma_denser_triangle(first, xs, width, lesser, greater, rows, p);
        lemma_sum_contains(
            polygon_points(triangles, crossings, width, height, lesser, m),
            consecutive_points(first, xs, width, lesser, rows),
            p,
        );
        lemma_sum_contains(
            polygon_points(triangles, crossings, width, height, greater, m),
            consecutive_points(first, xs, width, greater, rows),
            p,
        );
    }
}

/// Of two pictures of one polygon, on grids that were equal before, the one of
/// greater opacity has every pixel lit that the other has, and from opacity 1 on
/// they are equal.
pub proof fn law_denser_pictures_hold_sparser_ones(
    g: Grid,
    triangles: Seq<Triangle>,
    crossings: Seq<Vec<Vec<Double>>>,
    lesser: Double,
    greater: Double,
    color: u8,
    x: int,
    y: int,
)
    requires
        g.wf(),
        visible(lesser),
        lesser.at_most(greater),
    ensures
        visible(greater),
        ({
            let (w, h, n) = (g.width as int, g.height as int, triangles.len());
            let sparse = g.paint(
                polygon_points(triangles, crossings, w, h, lesser, n),
                color,
                false,
            );
            let dense = g.paint(
                polygon_points(triangles, crossings, w, h, greater, n),
                color,
                false,
            );
            &&& sparse.lit(x, y) ==> dense.lit(x, y)
            &&& lesser.value() >= one() ==> sparse == dense
        }),
{
    let (w, h, n) = (g.width as int, g.height as int, triangles.len());
    let a = polygon_points(triangles, crossings, w, h, lesser, n);
    let b = polygon_points(triangles, crossings, w, h, greater, n);
    lemma_denser_polygon(triangles, crossings, w, h, lesser, greater, n, (x, y));
    law_paint_lights_its_pixels(g, a, color, x, y);
    law_paint_lights_its_pixels(g, b, color, x, y);
}

proof fn lemma_rows_are_consecutive(
    rows: Seq<TriangleRow>,
    crossings: Seq<Vec<Double>>,
    first: int,
    width: int,
    opacity: Double,
    n: nat,
)
    requires
        n <= rows.len(),
        forall|i: int| 0 <= i < rows.len() ==> (#[trigger] rows[i]).y == first + i,
    ensures
        triangle_points(rows, crossings, width, opacity, n) == consecutive_points(
            first,
            crossings,
            width,
            opacity,
            n,
        ),
    decreases n,
{
    if n > 0 {
        lemma_rows_are_consecutive(rows, crossings, first, width, opacity, (n - 1) as nat);
        assert(rows[n - 1].y == first + (n - 1));
    }
}

/// How an area is drawn: its colors, where it has them, the opacity of its inside
/// and the width of its outline.
#[derive(Clone, Copy, Debug)]
pub struct AreaStyle {
    pub fill: Option<ColorIdx>,
    pub opacity: Double,
    pub stroke: Option<ColorIdx>,
    pub width: Double,
}

/// A grid after the inside of an area was drawn.
pub open spec fn filled_area(
    g: Grid,
    triangles: Option<Seq<Triangle>>,
    crossings: Seq<Vec<Vec<Double>>>,
    style: AreaStyle,
) -> Grid {
    match (style.fill, triangles) {
        (Some(color), Some(ts)) if visible(style.opacity) => g.paint(
            polygon_points(
                ts,
                crossings,
                g.width as int,
                g.height as int,
                style.opacity,
                ts.len(),
            ),
            color,
            false,
        ),
        _ => g,
    }
}

/// A grid after the outline of an area was drawn.
pub open spec fn outlined_area(
    g: Grid,
    rings: Seq<Vec<Point>>,
    reaches: Seq<Vec<i64>>,
    style: AreaStyle,
) -> Grid {
    match style.stroke {
        Some(color) => g.paint(
            outline_points(rings, style.width, reaches, rings.len()),
            color,
            false,
        ),
        None => g,
    }
}

fn bayer_threshold(x: i64, y: i32) -> (r: u8)
    requires
        x >= 0,
        y >= 0,
    ensures
        r == bayer(x as int, y as int),
        r < 16,
{
    let (r, c): (i32, i64) = (y % 4, x % 4);
    let at: i64 = 4 * (r as i64) + c;
    if at == 0 {
        0
    } else if at == 1 {
        8
    } else if at == 2 {
        2
    } else if at == 3 {
        10
    } else if at == 4 {
        12
    } else if at == 5 {
        4
    } else if at == 6 {
        14
    } else if at == 7 {
        6
    } else if at == 8 {
        3
    } else if at == 9 {
        11
    } else if at == 10 {
        1
    } else if at == 11 {
        9
    } else if at == 12 {
        15
    } else if at == 13 {
        7
    } else if at == 14 {
        13
    } else {
        5
    }
}

fn is_spanning(a: &Point, b: &Point, middle: &Double, Ghost(y): Ghost<int>) -> (r: bool)
    requires
        middle.finite(),
        2 * middle.value() == (2 * y + 1) * one(),
    ensures
        r == spans_row(*a, *b, y),
{
    (a.y.is_at_most(middle) && middle.is_below(&b.y)) || (b.y.is_at_most(middle)
        && middle.is_below(&a.y))
}

impl Canvas {
    /// The rows of a triangle within the canvas, each with the sides that
    /// cross it.
    pub fn triangle_rows(&self, a: Point, b: Point, c: Point) -> (r: Vec<TriangleRow>)
        requires
            self.wf(),
        ensures
            are_triangle_rows(r@, a, b, c, self.height as int),
    {
        let top: i32 = a.y.min(&b.y).min(&c.y).ceil_i32();
        let bottom: i32 = a.y.max(&b.y).max(&c.y).floor_i32();
        let first: i64 = if top > 0 {
            top as i64
        } else {
            0
        };
        let last: i64 = if (bottom as i64) < self.height as i64 - 1 {
            bottom as i64
        } else {
            self.height as i64 - 1
        };
        let mut rows: Vec<TriangleRow> = Vec::new();
        let mut y: i64 = first;
        while y <= last
            invariant
                0 <= first <= y,
                first <= i32::MAX,
                last < i32::MAX,
                y <= last + 1 || y == first,
                rows@.len() == y - first,
                forall|i: int|
                    0 <= i < rows@.len() ==> (#[trigger] rows@[i]).y == first + i
                        && rows@[i].sides@ == sides_across(a, b, c, first + i),
            decreases last - y + 1,
        {
            let middle: Double = Double::half_of(2 * (y as u64) + 1);
            let mut sides: Vec<(Point, Point)> = Vec::new();
            if is_spanning(&a, &b, &middle, Ghost(y as int)) {
                sides.push((a, b));
            }
            if is_spanning(&b, &c, &middle, Ghost(y as int)) {
                sides.push((b, c));
            }
            if is_spanning(&c, &a, &middle, Ghost(y as int)) {
                sides.push((c, a));
            }
            assert(sides@ =~= sides_across(a, b, c, y as int));
            rows.push(TriangleRow { y: y as i32, sides });
            y = y + 1;
        }
        rows
    }

    /// Fill a triangle. `crossings` says for each row where its sides cross it,
    /// one entry for each side.
    fn fill_triangle(
        &mut self,
        rows: &Vec<TriangleRow>,
        crossings: &Vec<Vec<Double>>,
        color: ColorIdx,
        opacity: Double,
    )
        requires
            old(self).wf(),
            crossings@.len() == rows@.len(),
            forall|i: int| 0 <= i < rows@.len() ==> (#[trigger] rows@[i]).y >= 0,
        ensures
            final(self).wf(),
            final(self)@ == old(self)@.paint(
                triangle_points(
                    rows@,
                    crossings@,
                    old(self).width as int,
                    opacity,
                    rows@.len(),
                ),
                color,
                false,
            ),
            final(self).width == old(self).width,
            final(self).height == old(self).height,
    {
        let mut i: usize = 0;
        while i < rows.len()
            invariant
                self.wf(),
                self.width == old(self).width,
                self.height == old(self).height,
                i <= rows@.len(),
                crossings@.len() == rows@.len(),
                forall|i: int| 0 <= i < rows@.len() ==> (#[trigger] rows@[i]).y >= 0,
                self@ == old(self)@.paint(
                    triangle_points(
                        rows@,
                        crossings@,
                        old(self).width as int,
                        opacity,
                        i as nat,
                    ),
                    color,
                    false,
                ),
            decreases rows@.len() - i,
        {
            let y: i32 = rows[i].y;
            let xs: &Vec<Double> = &crossings[i];
            proof {
                assert(rows@[i as int].y >= 0);
                lemma_paint_concat(
                    old(self)@,
                    triangle_points(
                        rows@,
                        crossings@,
                        old(self).width as int,
                        opacity,
                        i as nat,
                    ),
                    row_points(y as int, xs@, old(self).width as int, opacity),
                    color,
                    false,
                );
            }
            self.fill_dithered(y, xs, color, &opacity);
            i = i + 1;
        }
    }

    /// Fill a polygon with opacity support (ordered dithering). The first ring is
    /// the exterior, subsequent rings are holes. `opacity` controls pixel density:
    /// 1 is a solid fill, 0 draws no pixels. Returns whether the polygon could be
    /// cut into triangles.
    ///
    /// `turns`, `cut` and `crossings` say what rounds: where the rings turn, how
    /// they were cut, and where the sides of each triangle cross its rows.
    pub fn polygon_fill(
        &mut self,
        rings: &Vec<Vec<Point>>,
        turns: &Vec<Vec<bool>>,
        cut: &Cut,
        crossings: &Vec<Vec<Vec<Double>>>,
        color: ColorIdx,
        opacity: Double,
    ) -> (r: bool)
        requires
            old(self).wf(),
            turns_cover(rings@, turns@),
            cut_fits(rings@, turns@, cut.whole@, cut.outer@),
            visible(opacity) ==> (cut_polygon(rings@, turns@, cut.whole@, cut.outer@) matches Some(
                triangles,
            ) ==> crossings_fit(triangles, crossings@, old(self).height as int)),
        ensures
            final(self).wf(),
            r == (!visible(opacity) || cut_polygon(
                rings@,
                turns@,
                cut.whole@,
                cut.outer@,
            ) is Some),
            final(self)@ == match cut_polygon(rings@, turns@, cut.whole@, cut.outer@) {
                Some(triangles) if visible(opacity) => old(self)@.paint(
                    polygon_points(
                        triangles,
                        crossings@,
                        old(self).width as int,
                        old(self).height as int,
                        opacity,
                        triangles.len(),
                    ),
                    color,
                    false,
                ),
                _ => old(self)@,
            },
            final(self).width == old(self).width,
            final(self).height == old(self).height,
    {
        if !is_visible(&opacity) {
            return true;
        }
        match polygon_triangles(rings, turns, cut) {
            Some(triangles) => {
                self.rasterize_triangles(&triangles, crossings, color, opacity);
                true
            },
            None => false,
        }
    }

    /// Draw an area: fill it where there is a color for that, then draw its outline
    /// where there is a color for that. The other arguments are those of
    /// [`Canvas::polygon_fill`] and [`Canvas::polygon_stroke`].
    pub fn render_area_rings(
        &mut self,
        rings: &Vec<Vec<Point>>,
        turns: &Vec<Vec<bool>>,
        cut: &Cut,
        crossings: &Vec<Vec<Vec<Double>>>,
        reaches: &Vec<Vec<i64>>,
        style: &AreaStyle,
    )
        requires
            old(self).wf(),
            turns_cover(rings@, turns@),
            cut_fits(rings@, turns@, cut.whole@, cut.outer@),
            style.fill is Some && visible(style.opacity) ==> (cut_polygon(
                rings@,
                turns@,
                cut.whole@,
                cut.outer@,
            ) matches Some(triangles) ==> crossings_fit(
                triangles,
                crossings@,
                old(self).height as int,
            )),
            style.stroke is Some && is_wide(style.width) ==> reaches@.len() >= rings@.len(),
            style.stroke is Some && is_wide(style.width) ==> forall|r: int|
                0 <= r < rings@.len() ==> #[trigger] reaches@[r]@.len() >= rings@[r]@.len(),
        ensures
            final(self).wf(),
            final(self)@ == outlined_area(
                filled_area(
                    old(self)@,
                    cut_polygon(rings@, turns@, cut.whole@, cut.outer@),
                    crossings@,
                    *style,
                ),
                rings@,
                reaches@,
                *style,
            ),
            final(self).width == old(self).width,
            final(self).height == old(self).height,
    {
        if let Some(color) = style.fill {
            self.polygon_fill(rings, turns, cut, crossings, color, style.opacity);
        }
        if let Some(color) = style.stroke {
            self.polygon_stroke(rings, color, style.width, reaches);
        }
    }

    /// Fill a polygon defined by rings (outer ring + optional hole rings), all of
    /// its pixels; otherwise as [`Canvas::polygon_fill`].
    pub fn polygon(
        &mut self,
        rings: &Vec<Vec<Point>>,
        turns: &Vec<Vec<bool>>,
        cut: &Cut,
        crossings: &Vec<Vec<Vec<Double>>>,
        color: ColorIdx,
    ) -> (r: bool)
        requires
            old(self).wf(),
            turns_cover(rings@, turns@),
            cut_fits(rings@, turns@, cut.whole@, cut.outer@),
            cut_polygon(rings@, turns@, cut.whole@, cut.outer@) matches Some(triangles)
                ==> crossings_fit(triangles, crossings@, old(self).height as int),
        ensures
            final(self).wf(),
            r == (cut_polygon(rings@, turns@, cut.whole@, cut.outer@) is Some),
            final(self)@ == match cut_polygon(rings@, turns@, cut.whole@, cut.outer@) {
                Some(triangles) => old(self)@.paint(
                    polygon_points(
                        triangles,
                        crossings@,
                        old(self).width as int,
                        old(self).height as int,
                        Double { bits: ONE },
                        triangles.len(),
                    ),
                    color,
                    false,
                ),
                None => old(self)@,
            },
            final(self).width == old(self).width,
            final(self).height == old(self).height,
    {
        proof {
            lemma_one();
        }
        self.polygon_fill(rings, turns, cut, crossings, color, Double::from_bits(ONE))
    }

    fn rasterize_triangles(
        &mut self,
        triangles: &Vec<Triangle>,
        crossings: &Vec<Vec<Vec<Double>>>,
        color: ColorIdx,
        opacity: Double,
    )
        requires
            old(self).wf(),
            crossings_fit(triangles@, crossings@, old(self).height as int),
        ensures
            final(self).wf(),
            final(self)@ == old(self)@.paint(
                polygon_points(
                    triangles@,
                    crossings@,
                    old(self).width as int,
                    old(self).height as int,
                    opacity,
                    triangles@.len(),
                ),
                color,
                false,
            ),
            final(self).width == old(self).width,
            final(self).height == old(self).height,
    {
        let mut k: usize = 0;
        while k < triangles.len()
            invariant
                self.wf(),
                self.width == old(self).width,
                self.height == old(self).height,
                k <= triangles@.len(),
                crossings_fit(triangles@, crossings@, old(self).height as int),
                self@ == old(self)@.paint(
                    polygon_points(
                        triangles@,
                        crossings@,
                        old(self).width as int,
                        old(self).height as int,
                        opacity,
                        k as nat,
                    ),
                    color,
                    false,
                ),
            decreases triangles@.len() - k,
        {
            let t: Triangle = triangles[k];
            let rows: Vec<TriangleRow> = self.triangle_rows(t.a, t.b, t.c);
            let xs: &Vec<Vec<Double>> = &crossings[k];
            proof {
                assert(xs@.len() == row_count(t, self.height as int));
                let first = triangle_range(t.a, t.b, t.c, self.height as int).0;
                lemma_rows_are_consecutive(
                    rows@,
                    xs@,
                    first,
                    self.width as int,
                    opacity,
                    rows@.len(),
                );
                lemma_paint_concat(
                    old(self)@,
                    polygon_points(
                        triangles@,
                        crossings@,
                        old(self).width as int,
                        old(self).height as int,
                        opacity,
                        k as nat,
                    ),
                    consecutive_points(first, xs@, self.width as int, opacity, rows@.len()),
                    color,
                    false,
                );
            }
            self.fill_triangle(&rows, xs, color, opacity);
            k = k + 1;
        }
    }

    fn fill_dithered(&mut self, y: i32, xs: &Vec<Double>, color: ColorIdx, opacity: &Double)
        requires
            old(self).wf(),
            y >= 0,
        ensures
            final(self).wf(),
            final(self)@ == old(self)@.paint(
                row_points(y as int, xs@, old(self).width as int, *opacity),
                color,
                false,
            ),
            final(self).width == old(self).width,
            final(self).height == old(self).height,
    {
        let mut low: Double = Double { bits: LARGEST };
        let mut high: Double = Double { bits: MOST_NEGATIVE };
        let mut k: usize = 0;
        assert(xs@.take(0) =~= Seq::empty());
        while k < xs.len()
            invariant
                k <= xs@.len(),
                (low, high) == extent(xs@.take(k as int)),
            decreases xs@.len() - k,
        {
            assert(xs@.take(k + 1).drop_last() =~= xs@.take(k as int));
            low = low.min(&xs[k]);
            high = high.max(&xs[k]);
            k = k + 1;
        }
        assert(xs@.take(k as int) =~= xs@);
        if high.is_below(&low) {
            return;
        }
        let l: i32 = low.ceil_i32();
        let r: i32 = high.floor_i32();
        let left: i64 = if l > 0 {
            l as i64
        } else {
            0
        };
        let right: i64 = if (r as i64) < self.width as i64 - 1 {
            r as i64
        } else {
            self.width as i64 - 1
        };
        let full: Double = Double::from_u64(1);
        let solid: bool = full.is_at_most(opacity);
        let mut x: i64 = left;
        while x <= right
            invariant
                self.wf(),
                self.width == old(self).width,
                self.height == old(self).height,
                y >= 0,
                0 <= left <= x,
                x <= right + 1 || x == left,
                right < i32::MAX,
                solid == (!opacity.nan() && opacity.value() >= one()),
                self@ == old(self)@.paint(
                    dither_points(y as int, left as int, (x - left) as nat, *opacity),
                    color,
                    false,
                ),
            decreases right - x + 1,
        {
            proof {
                lemma_paint_push(
                    old(self)@,
                    dither_points(y as int, left as int, (x - left) as nat, *opacity),
                    (x as int, y as int),
                    color,
                    false,
                );
            }
            if solid || opacity.is_above_sixteenths(bayer_threshold(x, y)) {
                self.mark(x as i128, y as i128, color, false);
            }
            x = x + 1;
        }
    }
}

// -- What fills paint ------------------------------------------------------

/// A closing point is taken off a ring, and nothing else is.
pub proof fn law_only_the_closing_point_is_taken_off(points: Seq<Point>, last: Point)
    requires
        points.len() > 0,
    ensures
        points[0].x.same(last.x) && points[0].y.same(last.y) ==> open_ring(points.push(last))
            == points,
        !points[0].x.same(last.x) || !points[0].y.same(last.y) ==> open_ring(points.push(last))
            == points.push(last),
        points.len() == 1 ==> open_ring(points) == points,
{
    assert(points.push(last).drop_last() =~= points);
}

/// Whether an edge joins point `i` of a ring to the next, the last to the first.
pub open spec fn joins_next(e: Edge, points: Seq<Point>, i: int) -> bool {
    let next = if i + 1 < points.len() {
        points[i + 1]
    } else {
        points[0]
    };
    &&& e.x0 == points[i].pixel().0 && e.y0 == points[i].pixel().1
    &&& e.x1 == next.pixel().0 && e.y1 == next.pixel().1
}

/// The edges of an open ring: one from each point to the next, without those
/// along a row.
proof fn lemma_ring_edges(points: Seq<Point>, n: nat, e: Edge)
    requires
        n <= points.len(),
    ensures
        sloped_edges(points, n).contains(e) <==> e.y0 != e.y1 && exists|i: int|
            0 <= i < n && #[trigger] joins_next(e, points, i),
    decreases n,
{
    if n > 0 {
        lemma_ring_edges(points, (n - 1) as nat, e);
        let before = sloped_edges(points, (n - 1) as nat);
        let edge = ring_edge(points, n - 1);
        let len = points.len() as int;
        if n < len {
            vstd::arithmetic::div_mod::lemma_small_mod(n, len as nat);
        } else {
            vstd::arithmetic::div_mod::lemma_mod_self_0(len);
        }
        lemma_pixels_fit(points[n - 1]);
        lemma_pixels_fit(points[(n as int) % len]);
        assert(joins_next(e, points, n - 1) <==> e == edge);
        let all = sloped_edges(points, n);
        if before.contains(e) {
            let k = choose|k: int| 0 <= k < before.len() && before[k] == e;
            assert(all[k] == e);
            let i = choose|i: int| 0 <= i < n - 1 && #[trigger] joins_next(e, points, i);
            assert(joins_next(e, points, i));
        }
        if e == edge && edge.y0 != edge.y1 {
            assert(all[before.len() as int] == e);
        }
        if all.contains(e) {
            let k = choose|k: int| 0 <= k < all.len() && all[k] == e;
            if k < before.len() {
                assert(before[k] == e);
            }
        }
        if e.y0 != e.y1 && exists|i: int| 0 <= i < n && #[trigger] joins_next(e, points, i) {
            let i = choose|i: int| 0 <= i < n && #[trigger] joins_next(e, points, i);
            if i < n - 1 {
                assert(joins_next(e, points, i));
                assert(before.contains(e));
            }
        }
    }
}

proof fn lemma_pixels_fit(p: Point)
    ensures
        i32::MIN <= p.pixel().0 <= i32::MAX,
        i32::MIN <= p.pixel().1 <= i32::MAX,
{
}

/// The edges of a polygon join in each of its rings each point to the next and
/// the last to the first; those that run along a row are left out, and so are
/// rings of a single point.
pub proof fn law_edges_go_round_every_ring(rings: Seq<Vec<Point>>, n: nat, e: Edge)
    requires
        n <= rings.len(),
    ensures
        polygon_edges(rings, n).contains(e) <==> e.y0 != e.y1 && exists|r: int, i: int|
            0 <= r < n && 0 <= i < open_ring(rings[r]@).len() && open_ring(rings[r]@).len() >= 2
                && #[trigger] joins_next(e, open_ring(rings[r]@), i),
    decreases n,
{
    if n > 0 {
        law_edges_go_round_every_ring(rings, (n - 1) as nat, e);
        let before = polygon_edges(rings, (n - 1) as nat);
        let points = open_ring(rings[n - 1]@);
        let own = if points.len() < 2 {
            Seq::empty()
        } else {
            sloped_edges(points, points.len())
        };
        let all = polygon_edges(rings, n);
        assert(all == before + own);
        lemma_ring_edges(points, points.len(), e);
        if before.contains(e) {
            let k = choose|k: int| 0 <= k < before.len() && before[k] == e;
            assert(all[k] == e);
            let (r, i) = choose|r: int, i: int|
                0 <= r < n - 1 && 0 <= i < open_ring(rings[r]@).len() && open_ring(rings[r]@).len()
                    >= 2 && #[trigger] joins_next(e, open_ring(rings[r]@), i);
            assert(joins_next(e, open_ring(rings[r]@), i));
        }
        if own.contains(e) {
            let k = choose|k: int| 0 <= k < own.len() && own[k] == e;
            assert(all[before.len() + k] == e);
            let i = choose|i: int| 0 <= i < points.len() && #[trigger] joins_next(e, points, i);
            assert(joins_next(e, open_ring(rings[n - 1]@), i));
        }
        if all.contains(e) {
            let k = choose|k: int| 0 <= k < all.len() && all[k] == e;
            if k < before.len() {
                assert(before[k] == e);
            } else {
                assert(own[k - before.len()] == e);
            }
        }
        if e.y0 != e.y1 && exists|r: int, i: int|
            0 <= r < n && 0 <= i < open_ring(rings[r]@).len() && open_ring(rings[r]@).len() >= 2
                && #[trigger] joins_next(e, open_ring(rings[r]@), i) {
            let (r, i) = choose|r: int, i: int|
                0 <= r < n && 0 <= i < open_ring(rings[r]@).len() && open_ring(rings[r]@).len() >= 2
                    && #[trigger] joins_next(e, open_ring(rings[r]@), i);
            if r < n - 1 {
                assert(before.contains(e));
            } else {
                assert(own.contains(e));
            }
        }
    }
}

/// Whether a row lies between the ends of an edge: at its upper end or below it,
/// and above its lower end.
pub open spec fn runs_through(e: Edge, y: int) -> bool {
    let (upper, lower) = if e.y0 < e.y1 {
        (e.y0, e.y1)
    } else {
        (e.y1, e.y0)
    };
    upper <= y < lower
}

/// The edges of a row are all that run through it, in their order. `from` names
/// where each comes from.
pub proof fn law_rows_have_the_edges_that_run_through(edges: Seq<Edge>, y: int) -> (from: Seq<int>)
    ensures
        picks(from, edges.len(), |k: int| runs_through(edges[k], y)),
        from.len() == crossing_edges(edges, y).len(),
        forall|i: int|
            0 <= i < from.len() ==> #[trigger] crossing_edges(edges, y)[i] == edges[from[i]],
    decreases edges.len(),
{
    if edges.len() == 0 {
        Seq::empty()
    } else {
        let rest = edges.drop_last();
        let n = rest.len();
        let before = law_rows_have_the_edges_that_run_through(rest, y);
        assert(picks(before, n, |k: int| runs_through(edges[k], y))) by {
            assert forall|k: int| 0 <= k < n implies rest[k] == #[trigger] edges[k] by {}
            let wanted = |k: int| runs_through(rest[k], y);
            let same = |k: int| runs_through(edges[k], y);
            assert forall|k: int| 0 <= k < before.len() implies 0 <= #[trigger] before[k] < n
                && same(before[k]) by {
                assert(wanted(before[k]));
            }
            assert forall|i: int| 0 <= i < n && #[trigger] same(i) implies before.contains(i) by {
                assert(wanted(i));
            }
        }
        crate::styler::lemma_picks_push(before, n, |k: int| runs_through(edges[k], y));
        assert(edges.last() == edges[n as int]);
        if edges.last().crosses(y) {
            before.push(n as int)
        } else {
            before
        }
    }
}

/// Every row of the picture that an edge runs through is among the rows of its
/// polygon, and all rows are rows of the picture.
pub proof fn law_no_crossed_row_is_missed(edges: Seq<Edge>, height: int, y: int, k: int)
    requires
        0 <= k < edges.len(),
        0 <= y < height,
        runs_through(edges[k], y),
    ensures
        row_range(edges, height).0 <= y <= row_range(edges, height).1,
        row_range(edges, height).0 >= 0,
        row_range(edges, height).1 < height,
{
    lemma_between_top_and_bottom(edges, k);
}

proof fn lemma_between_top_and_bottom(edges: Seq<Edge>, k: int)
    requires
        0 <= k < edges.len(),
    ensures
        top_of(edges) <= edges[k].y0 <= bottom_of(edges),
        top_of(edges) <= edges[k].y1 <= bottom_of(edges),
    decreases edges.len(),
{
    if k < edges.len() - 1 {
        lemma_between_top_and_bottom(edges.drop_last(), k);
    }
}

/// Whether a pixel lies between the two crossings of a pair, both included.
pub open spec fn is_between_pair(xs: Seq<int>, k: int, x: int) -> bool {
    xs[2 * k] <= x <= xs[2 * k + 1]
}

/// A row of an even-odd fill paints the pixels of the picture that lie between
/// the first and the second crossing, between the third and the fourth, and so
/// on, and none else.
pub proof fn law_even_odd_fills_between_pairs(
    y: int,
    xs: Seq<int>,
    width: int,
    n: nat,
    p: (int, int),
)
    ensures
        even_odd_points(y, xs, width, n).contains(p) <==> p.1 == y && 0 <= p.0 < width
            && exists|k: int| 0 <= k < n && #[trigger] is_between_pair(xs, k, p.0),
    decreases n,
{
    if n > 0 {
        law_even_odd_fills_between_pairs(y, xs, width, (n - 1) as nat, p);
        let before = even_odd_points(y, xs, width, (n - 1) as nat);
        let (left, right) = (xs[2 * (n - 1)], xs[2 * (n - 1) + 1]);
        let (l, r) = (
            if left > 0 {
                left
            } else {
                0
            },
            if right < width - 1 {
                right
            } else {
                width - 1
            },
        );
        let own = span_points(y, l, r);
        lemma_sum_contains(before, own, p);
        if p.1 == y && l <= p.0 <= r {
            assert(own[p.0 - l] == p);
        }
        assert(own.contains(p) <==> p.1 == y && l <= p.0 <= r);
        assert(own.contains(p) <==> p.1 == y && 0 <= p.0 < width && is_between_pair(
            xs,
            n - 1,
            p.0,
        ));
        if exists|k: int| 0 <= k < n && #[trigger] is_between_pair(xs, k, p.0) {
            let k = choose|k: int| 0 <= k < n && #[trigger] is_between_pair(xs, k, p.0);
            if k < n - 1 {
                assert(is_between_pair(xs, k, p.0));
            }
        }
        if before.contains(p) {
            let k = choose|k: int| 0 <= k < n - 1 && #[trigger] is_between_pair(xs, k, p.0);
            assert(is_between_pair(xs, k, p.0));
        }
    }
}

/// A polygon paints in each of its rows what the row's own crossings, sorted,
/// enclose.
pub proof fn law_scanned_rows_are_painted_one_by_one(
    rows: Seq<ScanRow>,
    crossings: Seq<Vec<i32>>,
    width: int,
    n: nat,
    p: (int, int),
)
    requires
        n <= rows.len(),
        n <= crossings.len(),
    ensures
        scan_points(rows, crossings, width, n).contains(p) <==> 0 <= p.0 < width && exists|
            r: int,
            k: int,
        |
            0 <= r < n && 0 <= k < crossings[r]@.len() / 2 && p.1 == rows[r].y
                && #[trigger] is_between_pair(ascending(crossing_ints(crossings[r]@)), k, p.0),
    decreases n,
{
    if n > 0 {
        law_scanned_rows_are_painted_one_by_one(rows, crossings, width, (n - 1) as nat, p);
        let before = scan_points(rows, crossings, width, (n - 1) as nat);
        let xs = crossing_ints(crossings[n - 1]@);
        let y = rows[n - 1].y as int;
        let own = even_odd_points(y, ascending(xs), width, xs.len() / 2);
        law_even_odd_fills_between_pairs(y, ascending(xs), width, xs.len() / 2, p);
        lemma_sum_contains(before, own, p);
        if before.contains(p) {
            let (r, k) = choose|r: int, k: int|
                0 <= r < n - 1 && 0 <= k < crossings[r]@.len() / 2 && p.1 == rows[r].y
                    && #[trigger] is_between_pair(ascending(crossing_ints(crossings[r]@)), k, p.0);
            assert(is_between_pair(ascending(crossing_ints(crossings[r]@)), k, p.0));
        }
        if own.contains(p) {
            let k = choose|k: int|
                0 <= k < xs.len() / 2 && #[trigger] is_between_pair(ascending(xs), k, p.0);
            assert(is_between_pair(ascending(crossing_ints(crossings[n - 1]@)), k, p.0));
        }
        if 0 <= p.0 < width && exists|r: int, k: int|
            0 <= r < n && 0 <= k < crossings[r]@.len() / 2 && p.1 == rows[r].y
                && #[trigger] is_between_pair(ascending(crossing_ints(crossings[r]@)), k, p.0) {
            let (r, k) = choose|r: int, k: int|
                0 <= r < n && 0 <= k < crossings[r]@.len() / 2 && p.1 == rows[r].y
                    && #[trigger] is_between_pair(ascending(crossing_ints(crossings[r]@)), k, p.0);
            if r < n - 1 {
                assert(before.contains(p));
            } else {
                assert(own.contains(p));
            }
        }
    }
}

// -- What triangles paint --------------------------------------------------

/// A ring keeps the points at which it turns, in their order, as long as there
/// are three of them; a ring of three points or fewer is left as it is. `from`
/// names where each turning point comes from.
pub proof fn law_rings_keep_their_turns(points: Seq<Point>, turns: Seq<bool>) -> (from: Seq<int>)
    requires
        turns.len() >= points.len(),
    ensures
        picks(from, points.len(), |k: int| turns[k]),
        points.len() <= 3 || from.len() < 3 ==> without_collinear(points, turns) == points,
        points.len() > 3 && from.len() >= 3 ==> without_collinear(points, turns).len() == from.len()
            && forall|i: int|
            0 <= i < from.len() ==> #[trigger] without_collinear(points, turns)[i]
                == points[from[i]],
{
    lemma_turn_origins(points, turns, points.len())
}

proof fn lemma_turn_origins(points: Seq<Point>, turns: Seq<bool>, n: nat) -> (from: Seq<int>)
    ensures
        picks(from, n, |k: int| turns[k]),
        from.len() == turning_points(points, turns, n).len(),
        forall|i: int|
            0 <= i < from.len() ==> #[trigger] turning_points(points, turns, n)[i]
                == points[from[i]],
    decreases n,
{
    if n == 0 {
        Seq::empty()
    } else {
        let m = (n - 1) as nat;
        let before = lemma_turn_origins(points, turns, m);
        crate::styler::lemma_picks_push(before, m, |k: int| turns[k]);
        if turns[m as int] {
            before.push(m as int)
        } else {
            before
        }
    }
}

/// One more ring of a polygon adds its points behind those of the others; it is a
/// hole that starts where they end, unless it is the first. A ring without area
/// adds nothing, and where it is the first there is no mesh.
pub proof fn law_rings_are_joined_into_a_mesh(
    rings: Seq<Vec<Point>>,
    turns: Seq<Vec<bool>>,
    n: nat,
)
    requires
        n < rings.len(),
        n < turns.len(),
    ensures
        ({
            let points = without_collinear(open_ring(rings[n as int]@), turns[n as int]@);
            let after = mesh_of(rings, turns, n + 1);
            &&& n == 0 && points.len() < 3 ==> after is None
            &&& n == 0 && points.len() >= 3 ==> (after matches Some(m) && m.vertices == points
                && m.holes.len() == 0)
            &&& n > 0 ==> match mesh_of(rings, turns, n) {
                None => after is None,
                Some(before) => after matches Some(m) && if points.len() < 3 {
                    m == before
                } else {
                    &&& m.vertices == before.vertices + points
                    &&& m.holes == before.holes.push(before.vertices.len() as int)
                },
            }
        }),
{
    if n == 0 {
        let points = without_collinear(open_ring(rings[0]@), turns[0]@);
        assert(mesh_of(rings, turns, 0) is Some);
        assert(Seq::<Point>::empty() + points =~= points);
    }
}

/// A polygon is filled with the triangles of all its rings where there are any;
/// where there are none, but the polygon has holes, with those of its outer ring
/// alone. Each triangle has its corners at three places in a row.
pub proof fn law_triangles_come_from_the_mesh(
    rings: Seq<Vec<Point>>,
    turns: Seq<Vec<bool>>,
    whole: Seq<usize>,
    outer: Seq<usize>,
    k: int,
)
    ensures
        mesh_of(rings, turns, rings.len()) is None ==> cut_polygon(rings, turns, whole, outer)
            is None,
        mesh_of(rings, turns, rings.len()) matches Some(mesh) ==> {
            let cut = cut_polygon(rings, turns, whole, outer);
            &&& whole.len() > 0 ==> (cut matches Some(ts) && ts.len() == whole.len() / 3 && (0 <= k
                < ts.len() ==> ts[k].a == mesh.vertices[whole[3 * k] as int] && ts[k].b
                == mesh.vertices[whole[3 * k + 1] as int] && ts[k].c == mesh.vertices[whole[3 * k
                + 2] as int]))
            &&& whole.len() == 0 && mesh.holes.len() > 0 && outer.len() > 0 ==> (cut matches Some(
                ts,
            ) && ts.len() == outer.len() / 3 && (0 <= k < ts.len() ==> {
                let v = without_collinear(open_ring(rings[0]@), turns_of(turns, 0));
                ts[k].a == v[outer[3 * k] as int] && ts[k].b == v[outer[3 * k + 1] as int]
                    && ts[k].c == v[outer[3 * k + 2] as int]
            }))
            &&& whole.len() == 0 && (mesh.holes.len() == 0 || outer.len() == 0) ==> cut is None
        },
{
}

/// The center of a row is crossed by two sides of a triangle or by none: by two
/// if it is at the uppermost corner or below it and above the lowest one.
pub proof fn law_rows_cross_two_sides(a: Point, b: Point, c: Point, y: int)
    requires
        !a.y.nan(),
        !b.y.nan(),
        !c.y.nan(),
    ensures
        ({
            let half = (2 * y + 1) * one();
            let (p, q, r) = (2 * a.y.value(), 2 * b.y.value(), 2 * c.y.value());
            let sides = sides_across(a, b, c, y);
            &&& (p <= half || q <= half || r <= half) && (p > half || q > half || r > half)
                ==> sides.len() == 2
            &&& !((p <= half || q <= half || r <= half) && (p > half || q > half || r > half))
                ==> sides.len() == 0
            &&& forall|i: int|
                0 <= i < sides.len() ==> {
                    let side = #[trigger] sides[i];
                    &&& side == (a, b) || side == (b, c) || side == (c, a)
                    &&& (2 * side.0.y.value() <= half) != (2 * side.1.y.value() <= half)
                }
        }),
{
}

/// The rows that a triangle may touch are the rows of the picture at or below its
/// uppermost corner and at or above its lowest one.
pub proof fn law_triangles_touch_the_rows_between_their_corners(
    a: Point,
    b: Point,
    c: Point,
    height: int,
    y: int,
)
    requires
        a.y.finite(),
        b.y.finite(),
        c.y.finite(),
        0 <= height <= i32::MAX,
        0 <= y < height,
    ensures
        ({
            let (first, last) = triangle_range(a, b, c, height);
            let v = y * one();
            first <= y <= last <==> {
                &&& a.y.value() <= v || b.y.value() <= v || c.y.value() <= v
                &&& a.y.value() >= v || b.y.value() >= v || c.y.value() >= v
            }
        }),
{
    let low = a.y.lesser(b.y).lesser(c.y);
    let high = a.y.greater(b.y).greater(c.y);
    lemma_one();
    crate::double::law_integers_next_to_a_number(low);
    crate::double::law_integers_next_to_a_number(high);
    lemma_whole_bounds(low.ceil(), low.value(), y, one());
    lemma_whole_bounds(high.floor() + 1, high.value() + 1, y + 1, one());
    lemma_floor_bound(high.floor(), high.value(), y, one());
}

proof fn lemma_whole_bounds(c: int, v: int, y: int, u: int)
    requires
        u > 0,
    ensures
        (c - 1) * u < v <= c * u ==> (c <= y <==> v <= y * u),
{
    if (c - 1) * u < v <= c * u {
        assert(c <= y <==> v <= y * u) by (nonlinear_arith)
            requires
                u > 0,
                (c - 1) * u < v <= c * u,
        ;
    }
}

proof fn lemma_floor_bound(f: int, v: int, y: int, u: int)
    requires
        u > 0,
        f * u <= v < (f + 1) * u,
    ensures
        y <= f <==> y * u <= v,
{
    assert(y <= f <==> y * u <= v) by (nonlinear_arith)
        requires
            u > 0,
            f * u <= v < (f + 1) * u,
    ;
}

/// The extent of crossings reaches from the least to the greatest of them.
pub proof fn law_extents_hold_all_crossings(crossings: Seq<Double>, k: int)
    requires
        crossings.len() > 0,
        0 <= k < crossings.len(),
        forall|i: int| 0 <= i < crossings.len() ==> (#[trigger] crossings[i]).finite(),
    ensures
        ({
            let (low, high) = extent(crossings);
            &&& low.finite() && high.finite()
            &&& low.value() <= crossings[k].value() <= high.value()
            &&& exists|i: int|
                0 <= i < crossings.len() && (#[trigger] crossings[i]).value() == low.value()
            &&& exists|i: int|
                0 <= i < crossings.len() && (#[trigger] crossings[i]).value() == high.value()
        }),
    decreases crossings.len(),
{
    let rest = crossings.drop_last();
    let n = crossings.len() - 1;
    assert(crossings.last() == crossings[n]);
    assert forall|i: int| 0 <= i < rest.len() implies #[trigger] rest[i] == crossings[i] by {}
    if rest.len() == 0 {
        assert(extent(rest) == (Double { bits: LARGEST }, Double { bits: MOST_NEGATIVE }));
        lemma_within_all(crossings[0]);
        assert(k == 0);
        assert(extent(crossings).0.value() == crossings[0].value());
        assert(extent(crossings).1.value() == crossings[0].value());
    } else {
        law_extents_hold_all_crossings(
            rest,
            if k < n {
                k
            } else {
                0
            },
        );
        let (low, high) = extent(rest);
        let i = choose|i: int| 0 <= i < rest.len() && (#[trigger] rest[i]).value() == low.value();
        let j = choose|j: int| 0 <= j < rest.len() && (#[trigger] rest[j]).value() == high.value();
        assert(crossings[i].value() == low.value() && crossings[j].value() == high.value());
    }
}

/// A finite number lies between the most negative and the largest one.
proof fn lemma_within_all(d: Double)
    requires
        d.finite(),
    ensures
        (Double { bits: MOST_NEGATIVE }).value() <= d.value() <= (Double { bits: LARGEST }).value(),
        (Double { bits: MOST_NEGATIVE }).finite(),
        (Double { bits: LARGEST }).finite(),
{
    crate::double::lemma_magnitude_order(d.mag(), LARGEST as nat);
    crate::double::lemma_magnitude_order(LARGEST as nat, d.mag());
    crate::double::lemma_magnitude_order(0, LARGEST as nat);
    assert((Double { bits: MOST_NEGATIVE }).mag() == LARGEST);
}

/// A pixel of a row of a triangle is painted exactly if it is in the picture,
/// between the least and the greatest crossing, and kept by the opacity.
pub proof fn law_triangle_rows_fill_between_crossings(
    y: int,
    crossings: Seq<Double>,
    width: int,
    opacity: Double,
    x: int,
)
    requires
        crossings.len() > 0,
        forall|i: int| 0 <= i < crossings.len() ==> (#[trigger] crossings[i]).finite(),
        0 <= width <= i32::MAX,
    ensures
        row_points(y, crossings, width, opacity).contains((x, y)) <==> 0 <= x < width
            && dither_keeps(opacity, x, y) && (exists|i: int|
            0 <= i < crossings.len() && (#[trigger] crossings[i]).value() <= x * one()) && (exists|
            i: int,
        | 0 <= i < crossings.len() && (#[trigger] crossings[i]).value() >= x * one()),
{
    let (low, high) = extent(crossings);
    law_extents_hold_all_crossings(crossings, 0);
    lemma_one();
    crate::double::law_integers_next_to_a_number(low);
    crate::double::law_integers_next_to_a_number(high);
    lemma_whole_bounds(low.ceil(), low.value(), x, one());
    lemma_floor_bound(high.floor(), high.value(), x, one());
    let left = if ceil_cast(low) > 0 {
        ceil_cast(low)
    } else {
        0
    };
    let right = if floor_cast(high) < width - 1 {
        floor_cast(high)
    } else {
        width - 1
    };
    if left <= right {
        lemma_dithered(y, left, (right - left + 1) as nat, opacity, x);
    }
    if exists|i: int| 0 <= i < crossings.len() && (#[trigger] crossings[i]).value() <= x * one() {
        let i = choose|i: int|
            0 <= i < crossings.len() && (#[trigger] crossings[i]).value() <= x * one();
        law_extents_hold_all_crossings(crossings, i);
    }
    if exists|i: int| 0 <= i < crossings.len() && (#[trigger] crossings[i]).value() >= x * one() {
        let i = choose|i: int|
            0 <= i < crossings.len() && (#[trigger] crossings[i]).value() >= x * one();
        law_extents_hold_all_crossings(crossings, i);
    }
    let i = choose|i: int|
        0 <= i < crossings.len() && (#[trigger] crossings[i]).value() == low.value();
    let j = choose|j: int|
        0 <= j < crossings.len() && (#[trigger] crossings[j]).value() == high.value();
    assert(low.value() <= x * one() ==> crossings[i].value() <= x * one());
    assert(high.value() >= x * one() ==> crossings[j].value() >= x * one());
}

proof fn lemma_dithered(y: int, left: int, n: nat, opacity: Double, x: int)
    ensures
        dither_points(y, left, n, opacity).contains((x, y)) <==> left <= x < left + n
            && dither_keeps(opacity, x, y),
    decreases n,
{
    if n > 0 {
        lemma_dithered(y, left, (n - 1) as nat, opacity, x);
        let before = dither_points(y, left, (n - 1) as nat, opacity);
        let all = dither_points(y, left, n, opacity);
        if before.contains((x, y)) {
            let k = choose|k: int| 0 <= k < before.len() && before[k] == (x, y);
            assert(all[k] == (x, y));
        }
        if x == left + n - 1 && dither_keeps(opacity, x, y) {
            assert(all[before.len() as int] == (x, y));
        }
        if all.contains((x, y)) {
            let k = choose|k: int| 0 <= k < all.len() && all[k] == (x, y);
            if k < before.len() {
                assert(before[k] == (x, y));
            }
        }
    }
}

/// The thresholds of the pixels repeat every four pixels on both axes. Each of a
/// square of four by four is another one, spread as far apart as they can be:
/// whether a pixel is in an odd column or row counts eights and fours, whether
/// it is in the second half of the square counts twos and ones.
pub proof fn law_thresholds_are_spread_out(x: int, y: int)
    ensures
        ({
            let (x0, x1) = (x % 2, x / 2 % 2);
            let (y0, y1) = (y % 2, y / 2 % 2);
            bayer(x, y) == 8 * ((x0 + y0) % 2) + 4 * y0 + 2 * ((x1 + y1) % 2) + y1
        }),
        bayer(x + 4, y) == bayer(x, y),
        bayer(x, y + 4) == bayer(x, y),
{
}

/// A pixel is kept exactly if the opacity is 1 or more, or if sixteen times the
/// opacity is greater than its threshold.
pub proof fn law_pixels_are_kept_above_their_threshold(opacity: Double, x: int, y: int)
    requires
        !opacity.nan(),
    ensures
        dither_keeps(opacity, x, y) <==> opacity.value() >= one() || 16 * opacity.value() > bayer(
            x,
            y,
        ) * one(),
{
}

/// An area is filled in its fill color and outlined in its stroke color. Without
/// a fill color, or with nothing to fill, its inside stays as it was, and
/// without a stroke color its outline does.
pub proof fn law_areas_are_painted_in_their_colors(
    g: Grid,
    triangles: Option<Seq<Triangle>>,
    crossings: Seq<Vec<Vec<Double>>>,
    rings: Seq<Vec<Point>>,
    reaches: Seq<Vec<i64>>,
    style: AreaStyle,
    x: int,
    y: int,
)
    requires
        g.wf(),
        g.contains(x, y),
    ensures
        style.fill is None || triangles is None ==> filled_area(g, triangles, crossings, style)
            == g,
        !style.opacity.nan() && style.opacity.value() <= 0 ==> filled_area(
            g,
            triangles,
            crossings,
            style,
        ) == g,
        style.stroke is None ==> outlined_area(g, rings, reaches, style) == g,
        (style.fill matches Some(color) ==> triangles matches Some(ts) ==> !style.opacity.nan()
            && style.opacity.value() > 0 ==> {
            let points = polygon_points(
                ts,
                crossings,
                g.width as int,
                g.height as int,
                style.opacity,
                ts.len(),
            );
            let r = filled_area(g, triangles, crossings, style);
            &&& r.lit(x, y) == (g.lit(x, y) || points.contains((x, y)))
            &&& points.contains((x, y)) ==> r.color_at(x, y) == color
        }),
        (style.stroke matches Some(color) ==> {
            let points = outline_points(rings, style.width, reaches, rings.len());
            let r = outlined_area(g, rings, reaches, style);
            &&& r.lit(x, y) == (g.lit(x, y) || points.contains((x, y)))
            &&& points.contains((x, y)) ==> r.color_at(x, y) == color
        }),
{
    if let (Some(color), Some(ts)) = (style.fill, triangles) {
        let points = polygon_points(
            ts,
            crossings,
            g.width as int,
            g.height as int,
            style.opacity,
            ts.len(),
        );
        lemma_painted(g, points, color, x, y);
    }
    if let Some(color) = style.stroke {
        lemma_painted(
            g,
            outline_points(rings, style.width, reaches, rings.len()),
            color,
            x,
            y,
        );
    }
}

pub proof fn lemma_painted(g: Grid, points: Seq<(int, int)>, color: u8, x: int, y: int)
    requires
        g.wf(),
        g.contains(x, y),
    ensures
        g.paint(points, color, false).lit(x, y) == (g.lit(x, y) || points.contains((x, y))),
        points.contains((x, y)) ==> g.paint(points, color, false).color_at(x, y) == color,
{
    law_paint_lights_its_pixels(g, points, color, x, y);
    law_paint_colors_its_pixels(g, points, color, false, x, y);
    if points.contains((x, y)) {
        let i = choose|i: int| 0 <= i < points.len() && points[i] == (x, y);
        assert(is_in_cell_of(g, points[i], x, y));
    }
}

/// Every row of the picture that an edge runs through is there once, with that
/// edge, and rows come from top to bottom.
pub proof fn law_rows_hold_every_edge(
    rows: Seq<ScanRow>,
    edges: Seq<Edge>,
    height: int,
    y: int,
    k: int,
)
    requires
        are_rows_of(rows, edges, height),
        0 <= k < edges.len(),
        0 <= y < height,
        runs_through(edges[k], y),
    ensures
        exists|r: int|
            0 <= r < rows.len() && (#[trigger] rows[r]).y == y && rows[r].edges@.contains(edges[k]),
        forall|r: int, s: int|
            0 <= r < s < rows.len() ==> (#[trigger] rows[r]).y < (#[trigger] rows[s]).y,
{
    law_no_crossed_row_is_missed(edges, height, y, k);
    let (first, last) = row_range(edges, height);
    let r = y - first;
    assert(rows[r].y == y);
    let from = law_rows_have_the_edges_that_run_through(edges, y);
    let wanted = |i: int| runs_through(edges[i], y);
    assert(wanted(k));
    assert(from.contains(k));
    let i = choose|i: int| 0 <= i < from.len() && from[i] == k;
    assert(crossing_edges(edges, y)[i] == edges[k]);
    assert(rows[r].edges@[i] == edges[k]);
    assert forall|a: int, b: int| 0 <= a < b < rows.len() implies (#[trigger] rows[a]).y < (
    #[trigger] rows[b]).y by {
        assert(rows[a].y == first + a && rows[b].y == first + b);
    }
}

/// Every row of the picture between the corners of a triangle is there, with the
/// sides that cross its center, from top to bottom.
pub proof fn law_triangle_rows_hold_their_sides(
    rows: Seq<TriangleRow>,
    t: Triangle,
    height: int,
    y: int,
)
    requires
        are_triangle_rows(rows, t.a, t.b, t.c, height),
        t.a.y.finite(),
        t.b.y.finite(),
        t.c.y.finite(),
        0 <= y < height <= i32::MAX,
        t.a.y.value() <= y * one() || t.b.y.value() <= y * one() || t.c.y.value() <= y * one(),
        t.a.y.value() >= y * one() || t.b.y.value() >= y * one() || t.c.y.value() >= y * one(),
    ensures
        exists|r: int|
            0 <= r < rows.len() && (#[trigger] rows[r]).y == y && rows[r].sides@ == sides_across(
                t.a,
                t.b,
                t.c,
                y,
            ),
        forall|r: int, s: int|
            0 <= r < s < rows.len() ==> (#[trigger] rows[r]).y < (#[trigger] rows[s]).y,
{
    law_triangles_touch_the_rows_between_their_corners(t.a, t.b, t.c, height, y);
    let (first, last) = triangle_range(t.a, t.b, t.c, height);
    assert(rows[y - first].y == y);
    assert forall|a: int, b: int| 0 <= a < b < rows.len() implies (#[trigger] rows[a]).y < (
    #[trigger] rows[b]).y by {
        assert(rows[a].y == first + a && rows[b].y == first + b);
    }
}

/// A polygon paints what the rows of its triangles paint, each row between its
/// own crossings, and nothing else.
pub proof fn law_polygons_paint_the_rows_of_their_triangles(
    triangles: Seq<Triangle>,
    crossings: Seq<Vec<Vec<Double>>>,
    width: int,
    height: int,
    opacity: Double,
    n: nat,
    p: (int, int),
)
    requires
        n <= triangles.len(),
    ensures
        polygon_points(triangles, crossings, width, height, opacity, n).contains(p) <==> exists|
            k: int,
            r: int,
        |
            0 <= k < n && 0 <= r < row_count(triangles[k], height) && (#[trigger] painted_row(
                triangles,
                crossings,
                width,
                height,
                opacity,
                k,
                r,
            )).contains(p),
    decreases n,
{
    if n > 0 {
        let m = (n - 1) as nat;
        law_polygons_paint_the_rows_of_their_triangles(
            triangles,
            crossings,
            width,
            height,
            opacity,
            m,
            p,
        );
        let before = polygon_points(triangles, crossings, width, height, opacity, m);
        let t = triangles[m as int];
        let first = triangle_range(t.a, t.b, t.c, height).0;
        let rows = row_count(t, height);
        let own = consecutive_points(first, crossings[m as int]@, width, opacity, rows);
        lemma_sum_contains(before, own, p);
        lemma_rows_painted(triangles, crossings, width, height, opacity, m as int, rows, p);
        if before.contains(p) {
            let (k, r) = choose|k: int, r: int|
                0 <= k < m && 0 <= r < row_count(triangles[k], height) && (#[trigger] painted_row(
                    triangles,
                    crossings,
                    width,
                    height,
                    opacity,
                    k,
                    r,
                )).contains(p);
            assert(painted_row(triangles, crossings, width, height, opacity, k, r).contains(p));
        }
        if own.contains(p) {
            let r = choose|r: int|
                0 <= r < rows && (#[trigger] painted_row(
                    triangles,
                    crossings,
                    width,
                    height,
                    opacity,
                    m as int,
                    r,
                )).contains(p);
            assert(painted_row(triangles, crossings, width, height, opacity, m as int, r).contains(
                p,
            ));
        }
        if exists|k: int, r: int|
            0 <= k < n && 0 <= r < row_count(triangles[k], height) && (#[trigger] painted_row(
                triangles,
                crossings,
                width,
                height,
                opacity,
                k,
                r,
            )).contains(p) {
            let (k, r) = choose|k: int, r: int|
                0 <= k < n && 0 <= r < row_count(triangles[k], height) && (#[trigger] painted_row(
                    triangles,
                    crossings,
                    width,
                    height,
                    opacity,
                    k,
                    r,
                )).contains(p);
            if k < m {
                assert(before.contains(p));
            } else {
                assert(own.contains(p));
            }
        }
    }
}

/// What row `r` of triangle `k` of a polygon paints.
pub open spec fn painted_row(
    triangles: Seq<Triangle>,
    crossings: Seq<Vec<Vec<Double>>>,
    width: int,
    height: int,
    opacity: Double,
    k: int,
    r: int,
) -> Seq<(int, int)> {
    let t = triangles[k];
    row_points(
        triangle_range(t.a, t.b, t.c, height).0 + r,
        crossings[k]@[r]@,
        width,
        opacity,
    )
}

proof fn lemma_rows_painted(
    triangles: Seq<Triangle>,
    crossings: Seq<Vec<Vec<Double>>>,
    width: int,
    height: int,
    opacity: Double,
    k: int,
    n: nat,
    p: (int, int),
)
    ensures
        ({
            let t = triangles[k];
            let first = triangle_range(t.a, t.b, t.c, height).0;
            consecutive_points(first, crossings[k]@, width, opacity, n).contains(p) <==> exists|
                r: int,
            |
                0 <= r < n && (#[trigger] painted_row(
                    triangles,
                    crossings,
                    width,
                    height,
                    opacity,
                    k,
                    r,
                )).contains(p)
        }),
    decreases n,
{
    if n > 0 {
        let m = (n - 1) as nat;
        lemma_rows_painted(triangles, crossings, width, height, opacity, k, m, p);
        let t = triangles[k];
        let first = triangle_range(t.a, t.b, t.c, height).0;
        let before = consecutive_points(first, crossings[k]@, width, opacity, m);
        let own = painted_row(triangles, crossings, width, height, opacity, k, m as int);
        lemma_sum_contains(before, own, p);
        if before.contains(p) {
            let r = choose|r: int|
                0 <= r < m && (#[trigger] painted_row(
                    triangles,
                    crossings,
                    width,
                    height,
                    opacity,
                    k,
                    r,
                )).contains(p);
            assert(painted_row(triangles, crossings, width, height, opacity, k, r).contains(p));
        }
        if exists|r: int|
            0 <= r < n && (#[trigger] painted_row(
                triangles,
                crossings,
                width,
                height,
                opacity,
                k,
                r,
            )).contains(p) {
            let r = choose|r: int|
                0 <= r < n && (#[trigger] painted_row(
                    triangles,
                    crossings,
                    width,
                    height,
                    opacity,
                    k,
                    r,
                )).contains(p);
            if r < m {
                assert(before.contains(p));
            }
        }
    }
}

} // verus!
