//! Canvas-like painting abstraction over `BrailleBuffer`.
//!
//! Provides Bresenham line drawing, thick lines (Zingl's algorithm),
//! polygon fills on triangles and scanlines, and text rendering.

use crate::braille_buffer::{
    addressable, law_set_pixel_lights_one, BrailleBuffer, ColorIdx, Grid,
};
use crate::double::{one, Double};
use vstd::arithmetic::div_mod::*;
use vstd::prelude::*;

verus! {

/// A 2-D point in pixel coordinates.
#[derive(Debug, Clone, Copy)]
pub struct Point {
    pub x: Double,
    pub y: Double,
}

impl Point {
    pub fn new(x: Double, y: Double) -> (r: Self)
        ensures
            r == (Point { x, y }),
    {
        Point { x, y }
    }

    /// The pixel that holds the point.
    pub open spec fn pixel(self) -> (int, int) {
        (self.x.as_i32(), self.y.as_i32())
    }

    /// Whether two points have the same coordinates.
    pub open spec fn same(self, other: Point) -> bool {
        self.x.same(other.x) && self.y.same(other.y)
    }

    pub(crate) fn to_pixel(&self) -> (r: (i32, i32))
        ensures
            (r.0 as int, r.1 as int) == self.pixel(),
    {
        (self.x.to_i32(), self.y.to_i32())
    }

    pub(crate) fn is_same(&self, other: &Point) -> (r: bool)
        ensures
            r == self.same(*other),
    {
        self.x.is_same(&other.x) && self.y.is_same(&other.y)
    }
}

// -- Painting --------------------------------------------------------------

impl Grid {
    /// The grid after one pixel was painted; a thin one replaces what its cell
    /// showed.
    pub open spec fn mark(self, p: (int, int), color: u8, thin: bool) -> Grid {
        if thin {
            self.set_pixel_line(p.0, p.1, color)
        } else {
            self.set_pixel(p.0, p.1, color)
        }
    }

    /// The grid after the pixels of a list were painted in order.
    pub open spec fn paint(self, points: Seq<(int, int)>, color: u8, thin: bool) -> Grid
        decreases points.len(),
    {
        if points.len() == 0 {
            self
        } else {
            self.paint(points.drop_last(), color, thin).mark(points.last(), color, thin)
        }
    }
}

/// Painting one list after another paints both.
pub proof fn lemma_paint_concat(
    g: Grid,
    a: Seq<(int, int)>,
    b: Seq<(int, int)>,
    color: u8,
    thin: bool,
)
    ensures
        g.paint(a + b, color, thin) == g.paint(a, color, thin).paint(b, color, thin),
    decreases b.len(),
{
    if b.len() == 0 {
        assert(a + b =~= a);
    } else {
        assert((a + b).drop_last() =~= a + b.drop_last());
        lemma_paint_concat(g, a, b.drop_last(), color, thin);
    }
}

pub proof fn lemma_paint_push(
    g: Grid,
    a: Seq<(int, int)>,
    p: (int, int),
    color: u8,
    thin: bool,
)
    ensures
        g.paint(a.push(p), color, thin) == g.paint(a, color, thin).mark(p, color, thin),
{
    assert(a.push(p).drop_last() =~= a);
}

/// Painting lights the pixels of the list that are on the grid, and puts out
/// none.
pub proof fn law_paint_lights_its_pixels(
    g: Grid,
    points: Seq<(int, int)>,
    color: u8,
    x: int,
    y: int,
)
    requires
        g.wf(),
    ensures
        g.paint(points, color, false).wf(),
        g.paint(points, color, false).width == g.width,
        g.paint(points, color, false).height == g.height,
        g.paint(points, color, false).lit(x, y) == (g.lit(x, y) || (g.contains(x, y)
            && points.contains((x, y)))),
    decreases points.len(),
{
    if points.len() > 0 {
        let (rest, p) = (points.drop_last(), points.last());
        law_paint_lights_its_pixels(g, rest, color, x, y);
        law_set_pixel_lights_one(g.paint(rest, color, false), p.0, p.1, color, x, y);
        assert(points =~= rest.push(p));
        if rest.contains((x, y)) {
            let i = choose|i: int| 0 <= i < rest.len() && rest[i] == (x, y);
            assert(points[i] == (x, y));
        }
        if p == (x, y) {
            assert(points[points.len() - 1] == (x, y));
        }
    }
}

// -- Lines -----------------------------------------------------------------

pub open spec fn distance(a: int, b: int) -> int {
    if a < b {
        b - a
    } else {
        a - b
    }
}

/// The coordinate `i` steps from `a` on the way to `b`.
pub open spec fn toward(a: int, b: int, i: int) -> int {
    if a < b {
        a + i
    } else {
        a - i
    }
}

/// How far a line has gone on its shorter axis after `k` steps on the longer
/// one, to the nearest pixel.
pub open spec fn minor_step(long: int, short: int, k: int) -> int {
    if long == 0 {
        0
    } else {
        (2 * short * k + long) / (2 * long)
    }
}

/// The `i`-th pixel of the line between two pixels.
pub open spec fn line_point(from: (int, int), to: (int, int), i: int) -> (int, int) {
    let dx = distance(from.0, to.0);
    let dy = distance(from.1, to.1);
    if dx >= dy {
        (toward(from.0, to.0, i), toward(from.1, to.1, minor_step(dx, dy, i)))
    } else {
        (toward(from.0, to.0, minor_step(dy, dx, i)), toward(from.1, to.1, i))
    }
}

/// The pixels of the line between two pixels: one for each step on the longer
/// axis, the nearest on the other.
pub open spec fn line_points(from: (int, int), to: (int, int)) -> Seq<(int, int)> {
    let dx = distance(from.0, to.0);
    let dy = distance(from.1, to.1);
    let n = if dx >= dy {
        dx
    } else {
        dy
    };
    Seq::new((n + 1) as nat, |i: int| line_point(from, to, i))
}

/// One step on the longer axis moves the shorter one by at most one, and the
/// error term tells whether it does.
proof fn lemma_minor_step(long: int, short: int, k: int)
    requires
        0 <= short <= long,
        0 < long,
        0 <= k < long,
    ensures
        ({
            let m = minor_step(long, short, k);
            let err = (m + 1) * long - (k + 1) * short;
            &&& 0 <= m <= short
            &&& m <= minor_step(long, short, k + 1) <= short
            &&& 2 * err >= -short
            &&& 2 * err <= long ==> minor_step(long, short, k + 1) == m + 1
            &&& 2 * err > long ==> minor_step(long, short, k + 1) == m
            &&& -short <= err <= 2 * long
        }),
{
    let n = 2 * short * k + long;
    let m = minor_step(long, short, k);
    let d = 2 * long;
    lemma_fundamental_div_mod(n, d);
    lemma_mod_bound(n, d);
    let n1 = 2 * short * (k + 1) + long;
    assert(n1 == n + 2 * short) by (nonlinear_arith)
        requires
            n == 2 * short * k + long,
            n1 == 2 * short * (k + 1) + long,
    ;
    assert(n >= 0) by (nonlinear_arith)
        requires
            n == 2 * short * k + long,
            short >= 0,
            k >= 0,
            long > 0,
    ;
    let r = n % d;
    assert(n == d * m + r);
    assert(m >= 0) by {
        lemma_div_pos_is_pos(n, d);
    }
    let err = (m + 1) * long - (k + 1) * short;
    assert(2 * err == d * (m + 1) - (n1 - long)) by (nonlinear_arith)
        requires
            err == (m + 1) * long - (k + 1) * short,
            n1 == 2 * short * (k + 1) + long,
            d == 2 * long,
    ;
    assert(d * (m + 1) == d * m + d) by (nonlinear_arith);
    assert(n1 <= d * short + long) by (nonlinear_arith)
        requires
            n1 == 2 * short * (k + 1) + long,
            k + 1 <= long,
            short >= 0,
            d == 2 * long,
    ;
    if 2 * err <= long {
        // n1 >= d * (m + 1)
        lemma_fundamental_div_mod_converse(n1, d, m + 1, r + 2 * short - d);
    } else {
        lemma_fundamental_div_mod_converse(n1, d, m, r + 2 * short);
    }
    let m1 = minor_step(long, short, k + 1);
    assert(d * m1 <= n1) by {
        lemma_fundamental_div_mod(n1, d);
        lemma_mod_bound(n1, d);
    }
    assert(m1 <= short) by (nonlinear_arith)
        requires
            d * m1 <= n1,
            n1 <= d * short + long,
            d == 2 * long,
            long > 0,
    ;
}

/// A line starts at its first pixel and ends at its last.
proof fn lemma_minor_ends(long: int, short: int)
    requires
        0 <= short <= long,
        0 < long,
    ensures
        minor_step(long, short, 0) == 0,
        minor_step(long, short, long) == short,
{
    let d = 2 * long;
    assert(2 * short * 0 + long == long);
    lemma_fundamental_div_mod_converse(long, d, 0, long);
    assert(2 * short * long + long == short * d + long) by (nonlinear_arith)
        requires
            d == 2 * long,
    ;
    lemma_fundamental_div_mod_converse(2 * short * long + long, d, short, long);
}

/// A line joins its two ends, and each of its pixels touches the next.
pub proof fn law_line_joins_its_ends(from: (int, int), to: (int, int), i: int)
    ensures
        line_points(from, to).first() == from,
        line_points(from, to).last() == to,
        0 <= i < line_points(from, to).len() - 1 ==> {
            let (p, q) = (line_points(from, to)[i], line_points(from, to)[i + 1]);
            &&& distance(p.0, q.0) <= 1
            &&& distance(p.1, q.1) <= 1
            &&& p != q
        },
{
    let dx = distance(from.0, to.0);
    let dy = distance(from.1, to.1);
    if dx >= dy {
        if dx > 0 {
            lemma_minor_ends(dx, dy);
        }
    } else {
        lemma_minor_ends(dy, dx);
    }
    if 0 <= i < line_points(from, to).len() - 1 {
        lemma_line_step(from, to, i);
    }
}

proof fn lemma_line_step(from: (int, int), to: (int, int), i: int)
    requires
        0 <= i,
        i < distance(from.0, to.0) || i < distance(from.1, to.1),
    ensures
        distance(line_point(from, to, i).0, line_point(from, to, i + 1).0) <= 1,
        distance(line_point(from, to, i).1, line_point(from, to, i + 1).1) <= 1,
        line_point(from, to, i) != line_point(from, to, i + 1),
{
    let dx = distance(from.0, to.0);
    let dy = distance(from.1, to.1);
    if dx >= dy {
        lemma_minor_step(dx, dy, i);
    } else {
        lemma_minor_step(dy, dx, i);
    }
}

// -- Wide lines ------------------------------------------------------------

/// A wide line: where it ends, in which directions it runs, how far it goes on
/// each axis, and how large the error term may grow beside it.
pub struct WideLine {
    pub to: (int, int),
    pub right: bool,
    pub down: bool,
    pub dx: int,
    pub dy: int,
    pub reach: int,
}

/// How many steps to the side are painted: as long as the error term, which
/// grows with each step, stays below the reach, and no further than the end of
/// the line unless `past_end`.
pub open spec fn spread(err: int, growth: int, left: int, past_end: bool, reach: int) -> nat
    decreases
            if past_end {
                if err < reach {
                    reach - err
                } else {
                    0
                }
            } else {
                if left > 0 {
                    left
                } else {
                    0
                }
            },
{
    if err < reach && (if past_end {
        growth > 0
    } else {
        left > 0
    }) {
        1 + spread(err + growth, growth, left - 1, past_end, reach)
    } else {
        0
    }
}

impl WideLine {
    pub open spec fn between(from: (int, int), to: (int, int), reach: int) -> WideLine {
        WideLine {
            to,
            right: from.0 < to.0,
            down: from.1 < to.1,
            dx: distance(from.0, to.0),
            dy: distance(from.1, to.1),
            reach,
        }
    }

    /// The pixel from which `lx` and `ly` steps are left.
    pub open spec fn at(self, lx: int, ly: int) -> (int, int) {
        (
            if self.right {
                self.to.0 - lx
            } else {
                self.to.0 + lx
            },
            if self.down {
                self.to.1 - ly
            } else {
                self.to.1 + ly
            },
        )
    }

    pub open spec fn steps_right(self, err: int) -> bool {
        2 * err >= -self.dx
    }

    pub open spec fn steps_down(self, err: int) -> bool {
        2 * err <= self.dy
    }

    /// The pixels above or below the center of the line.
    pub open spec fn column(self, lx: int, ly: int, err: int) -> Seq<(int, int)> {
        if self.steps_right(err) {
            Seq::new(
                spread(err + self.dy, self.dx, ly, self.dx > self.dy, self.reach),
                |k: int| self.at(lx, ly - (k + 1)),
            )
        } else {
            Seq::empty()
        }
    }

    /// The pixels left or right of the center of the line.
    pub open spec fn row(self, lx: int, ly: int, err: int) -> Seq<(int, int)> {
        if self.steps_down(err) {
            Seq::new(
                spread(self.dx - err, self.dy, lx, self.dx < self.dy, self.reach),
                |k: int| self.at(lx - (k + 1), ly),
            )
        } else {
            Seq::empty()
        }
    }

    /// The pixels painted from a state of the line on, in order.
    pub open spec fn points_from(self, lx: int, ly: int, err: int) -> Seq<(int, int)>
        decreases lx + ly,
        when 0 <= lx && 0 <= ly && 0 <= self.dx && 0 <= self.dy
    {
        let here = seq![self.at(lx, ly)] + self.column(lx, ly, err);
        if self.steps_right(err) && lx == 0 {
            here
        } else {
            let lx1 = if self.steps_right(err) {
                lx - 1
            } else {
                lx
            };
            let err1 = if self.steps_right(err) {
                err - self.dy
            } else {
                err
            };
            if self.steps_down(err) {
                if ly == 0 {
                    here + self.row(lx, ly, err)
                } else {
                    here + self.row(lx, ly, err) + self.points_from(lx1, ly - 1, err1 + self.dx)
                }
            } else {
                here + self.points_from(lx1, ly, err1)
            }
        }
    }

    /// All pixels of the line.
    pub open spec fn points(self) -> Seq<(int, int)> {
        self.points_from(self.dx, self.dy, self.dx - self.dy)
    }
}

/// The parameters of a wide line.
struct WideRun {
    to: (i128, i128),
    right: bool,
    down: bool,
    dx: i128,
    dy: i128,
    reach: i64,
}

impl View for WideRun {
    type V = WideLine;

    closed spec fn view(&self) -> WideLine {
        WideLine {
            to: (self.to.0 as int, self.to.1 as int),
            right: self.right,
            down: self.down,
            dx: self.dx as int,
            dy: self.dy as int,
            reach: self.reach as int,
        }
    }
}

impl WideRun {
    spec fn wf(&self) -> bool {
        &&& 0 <= self.dx <= 0x1_0000_0000
        &&& 0 <= self.dy <= 0x1_0000_0000
        &&& i32::MIN <= self.to.0 <= i32::MAX
        &&& i32::MIN <= self.to.1 <= i32::MAX
        &&& self.right ==> i32::MIN <= self.to.0 - self.dx
        &&& !self.right ==> self.to.0 + self.dx <= i32::MAX
        &&& self.down ==> i32::MIN <= self.to.1 - self.dy
        &&& !self.down ==> self.to.1 + self.dy <= i32::MAX
    }

    fn new(from: (i32, i32), to: (i32, i32), reach: i64) -> (r: WideRun)
        ensures
            r.wf(),
            r@ == WideLine::between(
                (from.0 as int, from.1 as int),
                (to.0 as int, to.1 as int),
                reach as int,
            ),
    {
        let right: bool = from.0 < to.0;
        let down: bool = from.1 < to.1;
        let (x1, y1): (i128, i128) = (to.0 as i128, to.1 as i128);
        let dx: i128 = if right {
            x1 - from.0 as i128
        } else {
            from.0 as i128 - x1
        };
        let dy: i128 = if down {
            y1 - from.1 as i128
        } else {
            from.1 as i128 - y1
        };
        WideRun { to: (x1, y1), right, down, dx, dy, reach }
    }

    fn position(&self, lx: i128, ly: i128) -> (r: (i128, i128))
        requires
            self.wf(),
            0 <= lx <= self.dx,
            0 <= ly <= self.dy,
        ensures
            (r.0 as int, r.1 as int) == self@.at(lx as int, ly as int),
            i32::MIN <= r.0 <= i32::MAX,
            i32::MIN <= r.1 <= i32::MAX,
    {
        (
            if self.right {
                self.to.0 - lx
            } else {
                self.to.0 + lx
            },
            if self.down {
                self.to.1 - ly
            } else {
                self.to.1 + ly
            },
        )
    }
}

/// Whether a line of this width is more than one pixel wide.
pub open spec fn is_wide(width: Double) -> bool {
    !width.nan() && width.value() > crate::double::one()
}

/// The pixels of a line segment.
pub open spec fn segment(from: (int, int), to: (int, int), width: Double, reach: int) -> Seq<
    (int, int),
> {
    if is_wide(width) {
        WideLine::between(from, to, reach).points()
    } else {
        line_points(from, to)
    }
}

/// A line that is not wide is the line of single pixels between its ends, and a
/// line that goes nowhere is one pixel, however wide it is.
pub proof fn law_plain_lines_are_one_pixel_wide(
    from: (int, int),
    to: (int, int),
    width: Double,
    reach: int,
)
    ensures
        !is_wide(width) || from == to ==> segment(from, to, width, reach) == line_points(from, to),
        from == to ==> segment(from, to, width, reach) == seq![from],
{
    if from == to {
        let line = WideLine::between(from, to, reach);
        assert(line.column(0, 0, 0) =~= Seq::empty());
        assert(line.points() =~= seq![from]);
        assert(line_points(from, to) =~= seq![from]);
    }
}

/// Canvas wraps a `BrailleBuffer` and exposes high-level drawing primitives.
pub struct Canvas {
    pub width: usize,
    pub height: usize,
    pub buffer: BrailleBuffer,
}

impl View for Canvas {
    type V = Grid;

    open spec fn view(&self) -> Grid {
        self.buffer@
    }
}

impl Canvas {
    pub open spec fn wf(&self) -> bool {
        &&& self.buffer.wf()
        &&& self.width == self.buffer.width
        &&& self.height == self.buffer.height
    }

    /// Create a new canvas with the given pixel dimensions.
    pub fn new(width: usize, height: usize) -> (r: Self)
        requires
            addressable(width as nat, height as nat),
        ensures
            r.wf(),
            r@ == Grid::blank(width as nat, height as nat, 0),
    {
        Canvas { width, height, buffer: BrailleBuffer::new(width, height) }
    }

    /// Clear the canvas.
    pub fn clear(&mut self)
        requires
            old(self).wf(),
        ensures
            final(self).wf(),
            final(self)@ == Grid::blank(
                old(self)@.width,
                old(self)@.height,
                old(self)@.background,
            ),
    {
        self.buffer.clear();
    }

    /// Draw a text label at pixel `(x, y)`.
    pub fn text(&mut self, text: &str, x: i32, y: i32, color: ColorIdx, center: bool)
        requires
            old(self).wf(),
        ensures
            final(self).wf(),
            final(self)@ == old(self)@.write_text(text@, x as int, y as int, color, center),
            final(self).width == old(self).width,
            final(self).height == old(self).height,
    {
        self.buffer.write_text(text, x, y, color, center);
    }

    /// Set the global background color.
    pub fn set_background(&mut self, color: ColorIdx)
        requires
            old(self).wf(),
        ensures
            final(self).wf(),
            final(self)@ == (Grid { background: color, ..old(self)@ }),
    {
        self.buffer.set_global_background(color);
    }

    /// Set the background color for a specific pixel cell.
    pub fn background(&mut self, x: i32, y: i32, color: ColorIdx)
        requires
            old(self).wf(),
        ensures
            final(self).wf(),
            final(self)@ == old(self)@.set_background(x as int, y as int, color),
    {
        self.buffer.set_background(x, y, color);
    }

    /// Paint one pixel, wherever it lies.
    pub(crate) fn mark(&mut self, x: i128, y: i128, color: ColorIdx, thin: bool)
        requires
            old(self).wf(),
        ensures
            final(self).wf(),
            final(self)@ == old(self)@.mark((x as int, y as int), color, thin),
            final(self).width == old(self).width,
            final(self).height == old(self).height,
    {
        if 0 <= x && x < self.width as i128 && 0 <= y && y < self.height as i128 {
            if thin {
                self.buffer.set_pixel_line(x as i32, y as i32, color);
            } else {
                self.buffer.set_pixel(x as i32, y as i32, color);
            }
        }
    }

    pub fn bresenham_line(&mut self, from: (i32, i32), to: (i32, i32), color: ColorIdx, thin: bool)
        requires
            old(self).wf(),
        ensures
            final(self).wf(),
            final(self)@ == old(self)@.paint(
                line_points((from.0 as int, from.1 as int), (to.0 as int, to.1 as int)),
                color,
                thin,
            ),
            final(self).width == old(self).width,
            final(self).height == old(self).height,
    {
        let (x1, y1): (i128, i128) = (to.0 as i128, to.1 as i128);
        let mut x: i128 = from.0 as i128;
        let mut y: i128 = from.1 as i128;
        let dx: i128 = if x < x1 {
            x1 - x
        } else {
            x - x1
        };
        let dy: i128 = if y < y1 {
            y1 - y
        } else {
            y - y1
        };
        let sx: i128 = if x < x1 {
            1
        } else {
            -1
        };
        let sy: i128 = if y < y1 {
            1
        } else {
            -1
        };
        let mut err: i128 = dx - dy;
        let ghost a = (from.0 as int, from.1 as int);
        let ghost b = (to.0 as int, to.1 as int);
        let ghost points = line_points(a, b);
        let ghost (long, short) = if dx >= dy {
            (dx as int, dy as int)
        } else {
            (dy as int, dx as int)
        };
        let ghost mut i: int = 0;
        proof {
            if long > 0 {
                lemma_minor_ends(long, short);
            }
            let m = minor_step(long, short, 0);
            assert((m + 1) * long == long && (0 + 1) * short == short) by (nonlinear_arith)
                requires
                    m == 0,
            ;
            assert(points.take(0) =~= Seq::empty());
        }
        loop
            invariant_except_break
                self.wf(),
                self.width == old(self).width,
                self.height == old(self).height,
                0 <= i <= long,
                a == (from.0 as int, from.1 as int),
                b == (to.0 as int, to.1 as int),
                b == (x1 as int, y1 as int),
                points == line_points(a, b),
                points.len() == long + 1,
                dx == distance(a.0, b.0),
                dy == distance(a.1, b.1),
                dx <= 0x1_0000_0000,
                dy <= 0x1_0000_0000,
                sx == (if a.0 < b.0 {
                    1int
                } else {
                    -1int
                }),
                sy == (if a.1 < b.1 {
                    1int
                } else {
                    -1int
                }),
                long == (if dx >= dy {
                    dx as int
                } else {
                    dy as int
                }),
                short == (if dx >= dy {
                    dy as int
                } else {
                    dx as int
                }),
                (x as int, y as int) == line_point(a, b, i),
                long > 0 ==> minor_step(long, short, long) == short,
                dx >= dy ==> err == (minor_step(long, short, i) + 1) * dx - (i + 1) * dy,
                dx < dy ==> err == (i + 1) * dx - (minor_step(long, short, i) + 1) * dy,
                self@ == old(self)@.paint(points.take(i), color, thin),
            ensures
                self.wf(),
                self.width == old(self).width,
                self.height == old(self).height,
                self@ == old(self)@.paint(points, color, thin),
            decreases long - i,
        {
            proof {
                assert(points.take(i + 1) =~= points.take(i).push(points[i]));
                lemma_paint_push(old(self)@, points.take(i), points[i], color, thin);
            }
            self.mark(x, y, color, thin);
            proof {
                if i < long {
                    lemma_minor_step(long, short, i);
                } else {
                    assert(points.take(i + 1) =~= points);
                }
            }
            if x == x1 && y == y1 {
                break;
            }
            proof {
                assert(i < long);
                let m = minor_step(long, short, i);
                assert((m + 2) * long == (m + 1) * long + long) by (nonlinear_arith);
                assert((i + 2) * short == (i + 1) * short + short) by (nonlinear_arith);
            }
            let e2: i128 = 2 * err;
            if e2 >= -dy {
                err = err - dy;
                x = x + sx;
            }
            if e2 <= dx {
                err = err + dx;
                y = y + sy;
            }
            proof {
                i = i + 1;
            }
        }
    }

    /// Paint a side step of a wide line: `n` pixels from the center on.
    fn paint_spread(
        &mut self,
        start: (i128, i128),
        step: (i128, i128),
        err: i128,
        growth: i128,
        left: i128,
        past_end: bool,
        reach: i64,
        color: ColorIdx,
        thin: bool,
    )
        requires
            old(self).wf(),
            -0x1_0000_0000 <= start.0 <= 0x1_0000_0000,
            -0x1_0000_0000 <= start.1 <= 0x1_0000_0000,
            -1 <= step.0 <= 1,
            -1 <= step.1 <= 1,
            0 <= growth <= 0x1_0000_0000,
            0 <= left <= 0x1_0000_0000,
            past_end ==> growth > 0,
            -0x100_0000_0000_0000_0000 <= err <= 0x100_0000_0000_0000_0000,
        ensures
            final(self).wf(),
            final(self)@ == old(self)@.paint(
                Seq::new(
                    spread(err as int, growth as int, left as int, past_end, reach as int),
                    |k: int| (start.0 + step.0 * (k + 1), start.1 + step.1 * (k + 1)),
                ),
                color,
                thin,
            ),
            final(self).width == old(self).width,
            final(self).height == old(self).height,
    {
        let ghost n = spread(err as int, growth as int, left as int, past_end, reach as int);
        let ghost points = Seq::new(
            n,
            |k: int| (start.0 + step.0 * (k + 1), start.1 + step.1 * (k + 1)),
        );
        let mut k: i128 = 0;
        let mut e: i128 = err;
        let mut x: i128 = start.0;
        let mut y: i128 = start.1;
        proof {
            assert(points.take(0) =~= Seq::empty());
            assert(step.0 * 0 == 0 && step.1 * 0 == 0) by (nonlinear_arith);
        }
        while e < reach as i128 && (past_end || left != k)
            invariant
                self.wf(),
                self.width == old(self).width,
                self.height == old(self).height,
                0 <= k,
                0 <= left <= 0x1_0000_0000,
                -1 <= step.0 <= 1,
                -1 <= step.1 <= 1,
                -0x1_0000_0000 <= start.0 <= 0x1_0000_0000,
                -0x1_0000_0000 <= start.1 <= 0x1_0000_0000,
                0 <= growth <= 0x1_0000_0000,
                past_end ==> growth > 0,
                !past_end ==> k <= left,
                past_end ==> k <= e - err,
                -0x100_0000_0000_0000_0000 <= err,
                err <= e <= 0x100_0000_0001_0000_0000,
                x == start.0 + step.0 * k,
                y == start.1 + step.1 * k,
                n == k + spread(
                    e as int,
                    growth as int,
                    left as int - k as int,
                    past_end,
                    reach as int,
                ),
                points == Seq::new(
                    n,
                    |k: int| (start.0 + step.0 * (k + 1), start.1 + step.1 * (k + 1)),
                ),
                self@ == old(self)@.paint(points.take(k as int), color, thin),
            decreases
                    if past_end {
                        if e < reach {
                            reach - e
                        } else {
                            0
                        }
                    } else {
                        left - k
                    },
        {
            proof {
                let kk = k as int;
                assert(points.take(kk + 1) =~= points.take(kk).push(points[kk]));
                lemma_paint_push(old(self)@, points.take(kk), points[kk], color, thin);
                assert(step.0 * (kk + 1) == step.0 * kk + step.0) by (nonlinear_arith);
                assert(step.1 * (kk + 1) == step.1 * kk + step.1) by (nonlinear_arith);
                assert(-kk <= step.0 * kk <= kk && -kk <= step.1 * kk <= kk) by (nonlinear_arith)
                    requires
                        -1 <= step.0 <= 1,
                        -1 <= step.1 <= 1,
                        kk >= 0,
                ;
            }
            x = x + step.0;
            y = y + step.1;
            self.mark(x, y, color, thin);
            e = e + growth;
            k = k + 1;
        }
        assert(points.take(k as int) =~= points);
    }

    fn paint_column(
        &mut self,
        line: &WideRun,
        lx: i128,
        ly: i128,
        err: i128,
        color: ColorIdx,
        thin: bool,
    )
        requires
            old(self).wf(),
            line.wf(),
            0 <= lx <= line.dx,
            0 <= ly <= line.dy,
            line@.steps_right(err as int),
            -0x80_0000_0000_0000_0000 <= err <= 0x80_0000_0000_0000_0000,
        ensures
            final(self).wf(),
            final(self)@ == old(self)@.paint(
                line@.column(lx as int, ly as int, err as int),
                color,
                thin,
            ),
            final(self).width == old(self).width,
            final(self).height == old(self).height,
    {
        let (x, y): (i128, i128) = line.position(lx, ly);
        let sy: i128 = if line.down {
            1
        } else {
            -1
        };
        let (dx, dy): (i128, i128) = (line.dx, line.dy);
        self.paint_spread((x, y), (0, sy), err + dy, dx, ly, dx > dy, line.reach, color, thin);
        proof {
            let column = line@.column(lx as int, ly as int, err as int);
            let painted = Seq::new(
                spread(err + dy, dx as int, ly as int, dx > dy, line.reach as int),
                |k: int| (x + 0i128 * (k + 1), y + sy * (k + 1)),
            );
            assert forall|k: int| 0 <= k < column.len() implies column[k] == #[trigger] painted[k]
            by {
                assert(0i128 * (k + 1) == 0) by (nonlinear_arith);
                assert(1 * (k + 1) == k + 1 && -1 * (k + 1) == -k - 1) by (nonlinear_arith);
            }
            assert(painted =~= column);
        }
    }

    fn paint_row(
        &mut self,
        line: &WideRun,
        lx: i128,
        ly: i128,
        err: i128,
        color: ColorIdx,
        thin: bool,
    )
        requires
            old(self).wf(),
            line.wf(),
            0 <= lx <= line.dx,
            0 <= ly <= line.dy,
            line@.steps_down(err as int),
            -0x80_0000_0000_0000_0000 <= err <= 0x80_0000_0000_0000_0000,
        ensures
            final(self).wf(),
            final(self)@ == old(self)@.paint(
                line@.row(lx as int, ly as int, err as int),
                color,
                thin,
            ),
            final(self).width == old(self).width,
            final(self).height == old(self).height,
    {
        let (x, y): (i128, i128) = line.position(lx, ly);
        let sx: i128 = if line.right {
            1
        } else {
            -1
        };
        let (dx, dy): (i128, i128) = (line.dx, line.dy);
        self.paint_spread((x, y), (sx, 0), dx - err, dy, lx, dx < dy, line.reach, color, thin);
        proof {
            let row = line@.row(lx as int, ly as int, err as int);
            let painted = Seq::new(
                spread(dx - err, dy as int, lx as int, dx < dy, line.reach as int),
                |k: int| (x + sx * (k + 1), y + 0i128 * (k + 1)),
            );
            assert forall|k: int| 0 <= k < row.len() implies row[k] == #[trigger] painted[k] by {
                assert(0i128 * (k + 1) == 0) by (nonlinear_arith);
                assert(1 * (k + 1) == k + 1 && -1 * (k + 1) == -k - 1) by (nonlinear_arith);
            }
            assert(painted =~= row);
        }
    }

    /// Zingl's wide line.
    fn wide_line(
        &mut self,
        from: (i32, i32),
        to: (i32, i32),
        reach: i64,
        color: ColorIdx,
        thin: bool,
    )
        requires
            old(self).wf(),
        ensures
            final(self).wf(),
            final(self)@ == old(self)@.paint(
                WideLine::between(
                    (from.0 as int, from.1 as int),
                    (to.0 as int, to.1 as int),
                    reach as int,
                ).points(),
                color,
                thin,
            ),
            final(self).width == old(self).width,
            final(self).height == old(self).height,
    {
        let line: WideRun = WideRun::new(from, to, reach);
        let (dx, dy): (i128, i128) = (line.dx, line.dy);
        let mut lx: i128 = dx;
        let mut ly: i128 = dy;
        let mut err: i128 = dx - dy;
        let ghost mut done: Seq<(int, int)> = Seq::empty();
        assert(done + line@.points() =~= line@.points());
        loop
            invariant_except_break
                self.wf(),
                self.width == old(self).width,
                self.height == old(self).height,
                line.wf(),
                dx == line.dx,
                dy == line.dy,
                0 <= lx <= dx,
                0 <= ly <= dy,
                -(dx + dy - lx - ly + 1) * 0x1_0000_0000 <= err <= (dx + dy - lx - ly + 1)
                    * 0x1_0000_0000,
                self@ == old(self)@.paint(done, color, thin),
                done + line@.points_from(lx as int, ly as int, err as int) == line@.points(),
            ensures
                self.wf(),
                self.width == old(self).width,
                self.height == old(self).height,
                self@ == old(self)@.paint(line@.points(), color, thin),
            decreases lx + ly,
        {
            let ghost rest = line@.points_from(lx as int, ly as int, err as int);
            let ghost here = line@.at(lx as int, ly as int);
            let ghost column = line@.column(lx as int, ly as int, err as int);
            let ghost row = line@.row(lx as int, ly as int, err as int);
            let ghost done1 = done + (seq![here] + column);
            proof {
                lemma_paint_push(old(self)@, done, here, color, thin);
                lemma_paint_concat(old(self)@, done.push(here), column, color, thin);
                assert(done1 =~= done.push(here) + column);
                lemma_paint_concat(old(self)@, done1, row, color, thin);
            }
            let (x, y): (i128, i128) = line.position(lx, ly);
            self.mark(x, y, color, thin);
            let e2: i128 = err;
            let (lx0, ly0): (i128, i128) = (lx, ly);
            if 2 * e2 >= -dx {
                self.paint_column(&line, lx0, ly0, e2, color, thin);
                if lx == 0 {
                    break;
                }
                err = err - dy;
                lx = lx - 1;
            }
            if 2 * e2 <= dy {
                self.paint_row(&line, lx0, ly0, e2, color, thin);
                if ly == 0 {
                    assert(done + (seq![here] + column + row) =~= done1 + row);
                    break;
                }
                err = err + dx;
                ly = ly - 1;
            }
            proof {
                let next = line@.points_from(lx as int, ly as int, err as int);
                if 2 * e2 <= dy {
                    assert(done + (seq![here] + column + row + next) =~= done1 + row + next);
                    done = done1 + row;
                } else {
                    assert(done + (seq![here] + column + next) =~= done1 + next);
                    done = done1;
                }
            }
        }
    }

    /// Bresenham line with optional width (Zingl's algorithm). `reach` is how large
    /// the error term may grow beside a line wider than one pixel.
    pub fn draw_line(
        &mut self,
        from: (i32, i32),
        to: (i32, i32),
        width: &Double,
        reach: i64,
        color: ColorIdx,
        thin: bool,
    )
        requires
            old(self).wf(),
        ensures
            final(self).wf(),
            final(self)@ == old(self)@.paint(
                segment(
                    (from.0 as int, from.1 as int),
                    (to.0 as int, to.1 as int),
                    *width,
                    reach as int,
                ),
                color,
                thin,
            ),
            final(self).width == old(self).width,
            final(self).height == old(self).height,
    {
        let one: Double = Double::from_u64(1);
        if one.is_below(width) {
            self.wide_line(from, to, reach, color, thin);
        } else {
            self.bresenham_line(from, to, color, thin);
        }
    }

    /// Draw a line between two points. `reach` is how large the error term may
    /// grow beside a line wider than one pixel.
    pub fn line(&mut self, from: Point, to: Point, color: ColorIdx, width: Double, reach: i64)
        requires
            old(self).wf(),
        ensures
            final(self).wf(),
            final(self)@ == old(self)@.paint(
                segment(from.pixel(), to.pixel(), width, reach as int),
                color,
                false,
            ),
            final(self).width == old(self).width,
            final(self).height == old(self).height,
    {
        self.draw_line(from.to_pixel(), to.to_pixel(), &width, reach, color, false);
    }

    /// Draw the segments between some pixels. `reaches` holds one entry for
    /// each segment of a line wider than one pixel.
    pub fn connect(
        &mut self,
        pixels: &Vec<(i32, i32)>,
        color: ColorIdx,
        width: &Double,
        reaches: &Vec<i64>,
        thin: bool,
    )
        requires
            old(self).wf(),
            is_wide(*width) ==> reaches@.len() + 1 >= pixels@.len(),
        ensures
            final(self).wf(),
            final(self)@ == old(self)@.paint(
                path_points(pixel_ints(pixels@), *width, reaches@, pixels@.len()),
                color,
                thin,
            ),
            final(self).width == old(self).width,
            final(self).height == old(self).height,
    {
        let ghost path = pixel_ints(pixels@);
        let mut i: usize = 1;
        while i < pixels.len()
            invariant
                self.wf(),
                self.width == old(self).width,
                self.height == old(self).height,
                1 <= i,
                i <= pixels@.len() || i == 1,
                path == pixel_ints(pixels@),
                is_wide(*width) ==> reaches@.len() + 1 >= pixels@.len(),
                self@ == old(self)@.paint(
                    path_points(path, *width, reaches@, i as nat),
                    color,
                    thin,
                ),
            decreases pixels@.len() - i,
        {
            let reach: i64 = if i - 1 < reaches.len() {
                reaches[i - 1]
            } else {
                0
            };
            proof {
                lemma_paint_concat(
                    old(self)@,
                    path_points(path, *width, reaches@, i as nat),
                    segment(path[i - 1], path[i as int], *width, reach_at(reaches@, i - 1)),
                    color,
                    thin,
                );
            }
            self.draw_line(pixels[i - 1], pixels[i], width, reach, color, thin);
            i = i + 1;
        }
    }

    /// Draw a polyline (connected line segments). `reaches` holds one entry for
    /// each segment of a line wider than one pixel.
    pub fn polyline(
        &mut self,
        points: &Vec<Point>,
        color: ColorIdx,
        width: Double,
        reaches: &Vec<i64>,
    )
        requires
            old(self).wf(),
            is_wide(width) ==> reaches@.len() + 1 >= points@.len(),
        ensures
            final(self).wf(),
            final(self)@ == old(self)@.paint(
                path_points(pixels_of(points@), width, reaches@, points@.len()),
                color,
                false,
            ),
            final(self).width == old(self).width,
            final(self).height == old(self).height,
    {
        let pixels: Vec<(i32, i32)> = to_pixels(points);
        self.connect(&pixels, color, &width, reaches, false);
    }

    /// Draw a polyline that renders as single braille dots per cell, preventing
    /// filled backgrounds (e.g. water) from making the line appear thick.
    pub fn polyline_thin(
        &mut self,
        points: &Vec<Point>,
        color: ColorIdx,
        width: Double,
        reaches: &Vec<i64>,
    )
        requires
            old(self).wf(),
            is_wide(width) ==> reaches@.len() + 1 >= points@.len(),
        ensures
            final(self).wf(),
            final(self)@ == old(self)@.paint(
                path_points(pixels_of(points@), width, reaches@, points@.len()),
                color,
                true,
            ),
            final(self).width == old(self).width,
            final(self).height == old(self).height,
    {
        let pixels: Vec<(i32, i32)> = to_pixels(points);
        self.connect(&pixels, color, &width, reaches, true);
    }

    /// Draw only the outline (stroke) of a polygon. `reaches` holds one list for
    /// each ring of a line wider than one pixel, with one entry for each point.
    pub fn polygon_stroke(
        &mut self,
        rings: &Vec<Vec<Point>>,
        color: ColorIdx,
        width: Double,
        reaches: &Vec<Vec<i64>>,
    )
        requires
            old(self).wf(),
            is_wide(width) ==> reaches@.len() >= rings@.len(),
            is_wide(width) ==> forall|r: int|
                0 <= r < rings@.len() ==> #[trigger] reaches@[r]@.len() >= rings@[r]@.len(),
        ensures
            final(self).wf(),
            final(self)@ == old(self)@.paint(
                outline_points(rings@, width, reaches@, rings@.len()),
                color,
                false,
            ),
            final(self).width == old(self).width,
            final(self).height == old(self).height,
    {
        let none: Vec<i64> = Vec::new();
        let mut r: usize = 0;
        while r < rings.len()
            invariant
                self.wf(),
                self.width == old(self).width,
                self.height == old(self).height,
                r <= rings@.len(),
                none@.len() == 0,
                is_wide(width) ==> reaches@.len() >= rings@.len(),
                is_wide(width) ==> forall|r: int|
                    0 <= r < rings@.len() ==> #[trigger] reaches@[r]@.len() >= rings@[r]@.len(),
                self@ == old(self)@.paint(
                    outline_points(rings@, width, reaches@, r as nat),
                    color,
                    false,
                ),
            decreases rings@.len() - r,
        {
            let ring: &Vec<Point> = &rings[r];
            let ring_reaches: &Vec<i64> = if r < reaches.len() {
                &reaches[r]
            } else {
                &none
            };
            let n: usize = ring.len();
            let ghost before = outline_points(rings@, width, reaches@, r as nat);
            if n >= 2 {
                let ghost open = path_points(pixels_of(ring@), width, ring_reaches@, n as nat);
                let ghost closing = segment(
                    ring@[n - 1].pixel(),
                    ring@[0].pixel(),
                    width,
                    reach_at(ring_reaches@, n - 1),
                );
                proof {
                    assert(ring_reaches_at(reaches@, r as int) =~= ring_reaches@);
                    lemma_paint_concat(old(self)@, before, open, color, false);
                    lemma_paint_concat(old(self)@, before + open, closing, color, false);
                    assert(before + (open + closing) =~= before + open + closing);
                }
                self.polyline(ring, color, width, ring_reaches);
                let reach: i64 = if n - 1 < ring_reaches.len() {
                    ring_reaches[n - 1]
                } else {
                    0
                };
                self.line(ring[n - 1], ring[0], color, width, reach);
            } else {
                assert(before + Seq::<(int, int)>::empty() =~= before);
            }
            r = r + 1;
        }
    }
}

/// The reach of a segment; lines that are one pixel wide have none.
pub open spec fn reach_at(reaches: Seq<i64>, i: int) -> int {
    if 0 <= i < reaches.len() {
        reaches[i] as int
    } else {
        0
    }
}

/// The reaches of the segments of a ring.
pub open spec fn ring_reaches_at(reaches: Seq<Vec<i64>>, r: int) -> Seq<i64> {
    if 0 <= r < reaches.len() {
        reaches[r]@
    } else {
        Seq::empty()
    }
}

/// The pixels of some points.
pub open spec fn pixels_of(points: Seq<Point>) -> Seq<(int, int)> {
    Seq::new(points.len(), |i: int| points[i].pixel())
}

/// Machine pixels as integers.
pub open spec fn pixel_ints(pixels: Seq<(i32, i32)>) -> Seq<(int, int)> {
    Seq::new(pixels.len(), |i: int| (pixels[i].0 as int, pixels[i].1 as int))
}

/// The pixels of some points.
pub fn to_pixels(points: &Vec<Point>) -> (r: Vec<(i32, i32)>)
    ensures
        r@.len() == points@.len(),
        pixel_ints(r@) == pixels_of(points@),
{
    let mut out: Vec<(i32, i32)> = Vec::new();
    let mut i: usize = 0;
    while i < points.len()
        invariant
            i <= points@.len(),
            out@.len() == i,
            forall|k: int|
                0 <= k < i ==> (
                (#[trigger] out@[k]).0 as int, out@[k].1 as int) == points@[k].pixel(),
        decreases points@.len() - i,
    {
        out.push(points[i].to_pixel());
        i = i + 1;
    }
    assert(pixel_ints(out@) =~= pixels_of(points@));
    out
}

/// The pixels of the segments between the first `n` pixels of a path.
pub open spec fn path_points(
    path: Seq<(int, int)>,
    width: Double,
    reaches: Seq<i64>,
    n: nat,
) -> Seq<(int, int)>
    decreases n,
{
    if n < 2 {
        Seq::empty()
    } else {
        path_points(path, width, reaches, (n - 1) as nat) + segment(
            path[n - 2],
            path[n - 1],
            width,
            reach_at(reaches, n - 2),
        )
    }
}

/// The pixels of the closed outline of a ring; a single point has none.
pub open spec fn ring_points(ring: Seq<Point>, width: Double, reaches: Seq<i64>) -> Seq<
    (int, int),
> {
    let n = ring.len();
    if n < 2 {
        Seq::empty()
    } else {
        path_points(pixels_of(ring), width, reaches, n) + segment(
            ring[n - 1].pixel(),
            ring[0].pixel(),
            width,
            reach_at(reaches, n - 1),
        )
    }
}

/// The pixels of the outlines of the first `n` rings.
pub open spec fn outline_points(
    rings: Seq<Vec<Point>>,
    width: Double,
    reaches: Seq<Vec<i64>>,
    n: nat,
) -> Seq<(int, int)>
    decreases n,
{
    if n == 0 {
        Seq::empty()
    } else {
        outline_points(rings, width, reaches, (n - 1) as nat) + ring_points(
            rings[n - 1]@,
            width,
            ring_reaches_at(reaches, n - 1),
        )
    }
}

// -- What is painted -------------------------------------------------------

/// The pixel of a point is the whole part of its coordinates.
pub proof fn law_points_lie_in_their_pixel(p: Point)
    requires
        p.x.finite(),
        p.y.finite(),
        -0x8000_0000 * one() < p.x.value() < 0x8000_0000 * one(),
        -0x8000_0000 * one() < p.y.value() < 0x8000_0000 * one(),
    ensures
        p.x.value() >= 0 ==> p.pixel().0 * one() <= p.x.value() < (p.pixel().0 + 1) * one(),
        p.x.value() <= 0 ==> (p.pixel().0 - 1) * one() < p.x.value() <= p.pixel().0 * one(),
        p.y.value() >= 0 ==> p.pixel().1 * one() <= p.y.value() < (p.pixel().1 + 1) * one(),
        p.y.value() <= 0 ==> (p.pixel().1 - 1) * one() < p.y.value() <= p.pixel().1 * one(),
{
    lemma_whole_part(p.x);
    lemma_whole_part(p.y);
}

proof fn lemma_whole_part(d: Double)
    requires
        d.finite(),
        -0x8000_0000 * one() < d.value() < 0x8000_0000 * one(),
    ensures
        d.value() >= 0 ==> d.as_i32() * one() <= d.value() < (d.as_i32() + 1) * one(),
        d.value() <= 0 ==> (d.as_i32() - 1) * one() < d.value() <= d.as_i32() * one(),
{
    crate::double::law_integers_next_to_a_number(d);
    crate::double::lemma_one();
    crate::double::lemma_magnitude_order(d.mag(), 0);
    let (f, c, v, u) = (d.floor(), d.ceil(), d.value(), one());
    assert(-0x8000_0000 <= f < 0x8000_0000 && -0x8000_0000 < c <= 0x8000_0000 && (v >= 0 ==> f >= 0)
        && (v <= 0 ==> c <= 0) && (v == 0 ==> f == 0 && c == 0)) by (nonlinear_arith)
        requires
            -0x8000_0000 * u < v < 0x8000_0000 * u,
            f * u <= v < (f + 1) * u,
            (c - 1) * u < v <= c * u,
            u > 0,
    ;
    assert(0 * u == 0 && (0 + 1) * u == u && (0 - 1) * u == -u) by (nonlinear_arith);
}

/// Painting gives the pixels of the list that are on the grid the color, and
/// nothing outside their cells changes.
pub proof fn law_paint_colors_its_pixels(
    g: Grid,
    points: Seq<(int, int)>,
    color: u8,
    thin: bool,
    x: int,
    y: int,
)
    requires
        g.wf(),
        g.contains(x, y),
    ensures
        ({
            let r = g.paint(points, color, thin);
            &&& r.wf()
            &&& r.width == g.width && r.height == g.height
            &&& r.texts == g.texts && r.bg == g.bg && r.background == g.background
            &&& (exists|i: int|
                0 <= i < points.len() && #[trigger] is_in_cell_of(g, points[i], x, y))
                ==> r.fg[g.cell(x, y)] == color
            &&& (forall|i: int|
                0 <= i < points.len() ==> !#[trigger] is_in_cell_of(g, points[i], x, y))
                ==> r.fg[g.cell(x, y)] == g.fg[g.cell(x, y)] && r.dots[g.cell(x, y)]
                == g.dots[g.cell(x, y)]
        }),
    decreases points.len(),
{
    if points.len() > 0 {
        let (rest, p) = (points.drop_last(), points.last());
        law_paint_colors_its_pixels(g, rest, color, thin, x, y);
        assert forall|i: int| 0 <= i < rest.len() implies #[trigger] rest[i] == points[i] by {}
        assert(points[points.len() - 1] == p);
        let before = g.paint(rest, color, thin);
        if g.contains(p.0, p.1) {
            lemma_cell_of_pixel(g, p.0, p.1, x, y);
        }
        if exists|i: int| 0 <= i < points.len() && #[trigger] is_in_cell_of(g, points[i], x, y) {
            let i = choose|i: int|
                0 <= i < points.len() && #[trigger] is_in_cell_of(g, points[i], x, y);
            if i < rest.len() {
                assert(is_in_cell_of(g, rest[i], x, y));
            }
        } else {
            assert(!is_in_cell_of(g, points[points.len() - 1], x, y));
            assert forall|i: int| 0 <= i < rest.len() implies !#[trigger] is_in_cell_of(
                g,
                rest[i],
                x,
                y,
            ) by {
                assert(!is_in_cell_of(g, points[i], x, y));
            }
        }
    }
}

/// Whether a pixel of the grid lies in the same cell as another.
pub open spec fn is_in_cell_of(g: Grid, p: (int, int), x: int, y: int) -> bool {
    0 <= p.0 < g.width && 0 <= p.1 < g.height && p.0 / 2 == x / 2 && p.1 / 4 == y / 4
}

proof fn lemma_cell_of_pixel(g: Grid, x: int, y: int, a: int, b: int)
    requires
        g.wf(),
        g.contains(x, y),
        g.contains(a, b),
    ensures
        0 <= g.cell(x, y) < g.cells(),
        0 <= g.cell(a, b) < g.cells(),
        g.cell(x, y) == g.cell(a, b) <==> x / 2 == a / 2 && y / 4 == b / 4,
{
    crate::braille_buffer::law_pixels_have_places_of_their_own(g, x, y, x, y);
    crate::braille_buffer::law_pixels_have_places_of_their_own(g, a, b, a, b);
    let n = g.cols() as int;
    lemma_fundamental_div_mod_converse(g.cell(x, y), n, y / 4, x / 2);
    lemma_fundamental_div_mod_converse(g.cell(a, b), n, b / 4, a / 2);
}

/// A thin line leaves in the cells that it runs through nothing but pixels of its
/// own, and every such cell has one; other cells stay as they were.
pub proof fn law_thin_lines_clear_their_cells(
    g: Grid,
    points: Seq<(int, int)>,
    color: u8,
    x: int,
    y: int,
)
    requires
        g.wf(),
        g.contains(x, y),
    ensures
        ({
            let r = g.paint(points, color, true);
            &&& r.wf() && r.width == g.width && r.height == g.height
            &&& (exists|i: int|
                0 <= i < points.len() && #[trigger] is_in_cell_of(g, points[i], x, y)) && r.lit(
                x,
                y,
            ) ==> points.contains((x, y))
            &&& (forall|i: int|
                0 <= i < points.len() ==> !#[trigger] is_in_cell_of(g, points[i], x, y)) ==> r.lit(
                x,
                y,
            ) == g.lit(x, y)
            &&& points.len() > 0 && points.last() == (x, y) ==> r.lit(x, y)
        }),
    decreases points.len(),
{
    if points.len() > 0 {
        let (rest, p) = (points.drop_last(), points.last());
        law_thin_lines_clear_their_cells(g, rest, color, x, y);
        assert forall|i: int| 0 <= i < rest.len() implies #[trigger] rest[i] == points[i] by {}
        assert(points[points.len() - 1] == p);
        let before = g.paint(rest, color, true);
        if g.contains(p.0, p.1) {
            crate::braille_buffer::law_thin_pixel_stands_alone(before, p.0, p.1, color, x, y);
        }
        if rest.contains((x, y)) {
            let i = choose|i: int| 0 <= i < rest.len() && rest[i] == (x, y);
            assert(points[i] == (x, y));
        }
        if !is_in_cell_of(g, p, x, y) {
            if exists|i: int| 0 <= i < points.len() && #[trigger] is_in_cell_of(g, points[i], x, y) {
                let i = choose|i: int|
                    0 <= i < points.len() && #[trigger] is_in_cell_of(g, points[i], x, y);
                assert(is_in_cell_of(g, rest[i], x, y));
            } else {
                assert forall|i: int| 0 <= i < rest.len() implies !#[trigger] is_in_cell_of(
                    g,
                    rest[i],
                    x,
                    y,
                ) by {
                    assert(!is_in_cell_of(g, points[i], x, y));
                }
            }
        } else {
            assert(is_in_cell_of(g, points[points.len() - 1], x, y));
        }
    }
}

/// The larger of two numbers.
pub open spec fn larger(a: int, b: int) -> int {
    if a < b {
        b
    } else {
        a
    }
}

/// A line has one pixel for each step on its longer axis. Each is the nearest to
/// where the line runs: no further than half a pixel away on the shorter axis,
/// of two that are equally near the one further along.
pub proof fn law_lines_follow_their_direction(from: (int, int), to: (int, int), i: int)
    requires
        0 <= i < line_points(from, to).len(),
    ensures
        ({
            let (dx, dy) = (distance(from.0, to.0), distance(from.1, to.1));
            let p = line_points(from, to)[i];
            let (a, b) = (distance(from.0, p.0), distance(from.1, p.1));
            &&& line_points(from, to).len() == larger(dx, dy) + 1
            &&& a <= dx && b <= dy
            &&& a > 0 ==> (p.0 > from.0) == (to.0 > from.0)
            &&& b > 0 ==> (p.1 > from.1) == (to.1 > from.1)
            &&& dx >= dy && dx > 0 ==> a == i && 2 * dy * a - dx < 2 * dx * b <= 2 * dy * a + dx
            &&& dx < dy ==> b == i && 2 * dx * b - dy < 2 * dy * a <= 2 * dx * b + dy
        }),
{
    let (dx, dy) = (distance(from.0, to.0), distance(from.1, to.1));
    if dx >= dy {
        if dx > 0 {
            lemma_nearest_step(dx, dy, i);
        }
    } else {
        lemma_nearest_step(dy, dx, i);
    }
}

proof fn lemma_nearest_step(long: int, short: int, k: int)
    requires
        0 <= short <= long,
        0 < long,
        0 <= k <= long,
    ensures
        ({
            let m = minor_step(long, short, k);
            &&& 0 <= m <= short
            &&& 2 * short * k - long < 2 * long * m <= 2 * short * k + long
        }),
{
    let m = minor_step(long, short, k);
    let n = 2 * short * k + long;
    lemma_fundamental_div_mod(n, 2 * long);
    lemma_mod_bound(n, 2 * long);
    assert(2 * long * m <= n < 2 * long * m + 2 * long);
    assert(2 * short * k >= 0 && 2 * short * k <= 2 * short * long) by (nonlinear_arith)
        requires
            0 <= k <= long,
            0 <= short,
    ;
    assert(0 <= m <= short) by (nonlinear_arith)
        requires
            2 * long * m <= n < 2 * long * m + 2 * long,
            n == 2 * short * k + long,
            0 <= 2 * short * k <= 2 * short * long,
            0 < long,
    ;
}

/// A wide line starts at its first end and never turns back from it: all its
/// pixels lie on the side of the other end.
pub proof fn law_wide_lines_go_forward(
    from: (int, int),
    to: (int, int),
    reach: int,
    i: int,
)
    requires
        0 <= i < WideLine::between(from, to, reach).points().len(),
    ensures
        ({
            let points = WideLine::between(from, to, reach).points();
            &&& points[0] == from
            &&& from.0 < to.0 ==> points[i].0 >= from.0
            &&& from.0 > to.0 ==> points[i].0 <= from.0
            &&& from.1 < to.1 ==> points[i].1 >= from.1
            &&& from.1 > to.1 ==> points[i].1 <= from.1
        }),
{
    let line = WideLine::between(from, to, reach);
    lemma_wide_forward(line, line.dx, line.dy, line.dx - line.dy, i);
    lemma_wide_first(line, line.dx, line.dy, line.dx - line.dy);
}

proof fn lemma_wide_first(line: WideLine, lx: int, ly: int, err: int)
    requires
        0 <= lx,
        0 <= ly,
        0 <= line.dx,
        0 <= line.dy,
    ensures
        line.points_from(lx, ly, err).len() > 0,
        line.points_from(lx, ly, err)[0] == line.at(lx, ly),
{
    let here = seq![line.at(lx, ly)] + line.column(lx, ly, err);
    assert(here[0] == line.at(lx, ly));
}

proof fn lemma_wide_forward(line: WideLine, lx: int, ly: int, err: int, i: int)
    requires
        0 <= lx,
        0 <= ly,
        0 <= line.dx,
        0 <= line.dy,
        0 <= i < line.points_from(lx, ly, err).len(),
    ensures
        ({
            let p = line.points_from(lx, ly, err)[i];
            &&& line.right ==> p.0 >= line.to.0 - lx
            &&& !line.right ==> p.0 <= line.to.0 + lx
            &&& line.down ==> p.1 >= line.to.1 - ly
            &&& !line.down ==> p.1 <= line.to.1 + ly
        }),
    decreases lx + ly,
{
    let here = seq![line.at(lx, ly)] + line.column(lx, ly, err);
    let own = here + line.row(lx, ly, err);
    if i < here.len() {
        if line.steps_down(err) {
            assert(own[i] == here[i]);
        }
        if i > 0 {
            assert(here[i] == line.column(lx, ly, err)[i - 1]);
        }
    } else if line.steps_right(err) && lx == 0 {
    } else {
        let lx1 = if line.steps_right(err) {
            lx - 1
        } else {
            lx
        };
        let err1 = if line.steps_right(err) {
            err - line.dy
        } else {
            err
        };
        if line.steps_down(err) {
            if i < own.len() {
                assert(own[i] == line.row(lx, ly, err)[i - here.len()]);
            } else {
                lemma_wide_forward(line, lx1, ly - 1, err1 + line.dx, i - own.len());
            }
        } else {
            lemma_wide_forward(line, lx1, ly, err1, i - here.len());
        }
    }
}

/// A path paints the pixels of the segments between each of its points and the
/// next, and nothing else.
pub proof fn law_paths_join_each_point_to_the_next(
    path: Seq<(int, int)>,
    width: Double,
    reaches: Seq<i64>,
    n: nat,
    p: (int, int),
)
    requires
        n <= path.len(),
    ensures
        path_points(path, width, reaches, n).contains(p) <==> exists|i: int|
            0 <= i < n - 1 && (#[trigger] segment_at(path, width, reaches, i)).contains(p),
    decreases n,
{
    if n >= 2 {
        law_paths_join_each_point_to_the_next(path, width, reaches, (n - 1) as nat, p);
        let before = path_points(path, width, reaches, (n - 1) as nat);
        let own = segment_at(path, width, reaches, n - 2);
        lemma_contains_concat(before, own, p);
        if before.contains(p) {
            let i = choose|i: int|
                0 <= i < n - 2 && (#[trigger] segment_at(path, width, reaches, i)).contains(p);
            assert(segment_at(path, width, reaches, i).contains(p));
        }
        if exists|i: int|
            0 <= i < n - 1 && (#[trigger] segment_at(path, width, reaches, i)).contains(p) {
            let i = choose|i: int|
                0 <= i < n - 1 && (#[trigger] segment_at(path, width, reaches, i)).contains(p);
            if i < n - 2 {
                assert(segment_at(path, width, reaches, i).contains(p));
            }
        }
    }
}

/// The segment from a point of a path to the next.
pub open spec fn segment_at(
    path: Seq<(int, int)>,
    width: Double,
    reaches: Seq<i64>,
    i: int,
) -> Seq<(int, int)> {
    segment(
        path[i],
        path[i + 1],
        width,
        if i < reaches.len() {
            reaches[i] as int
        } else {
            0
        },
    )
}

proof fn lemma_contains_concat(a: Seq<(int, int)>, b: Seq<(int, int)>, p: (int, int))
    ensures
        (a + b).contains(p) <==> a.contains(p) || b.contains(p),
{
    if a.contains(p) {
        let i = choose|i: int| 0 <= i < a.len() && a[i] == p;
        assert((a + b)[i] == p);
    }
    if b.contains(p) {
        let i = choose|i: int| 0 <= i < b.len() && b[i] == p;
        assert((a + b)[a.len() + i] == p);
    }
    if (a + b).contains(p) {
        let i = choose|i: int| 0 <= i < (a + b).len() && (a + b)[i] == p;
        if i >= a.len() {
            assert(b[i - a.len()] == p);
        } else {
            assert(a[i] == p);
        }
    }
}

/// The outline of a polygon joins in each ring each point to the next and the
/// last to the first, and paints nothing else. Rings of a single point have no
/// outline.
pub proof fn law_outlines_are_closed(
    rings: Seq<Vec<Point>>,
    width: Double,
    reaches: Seq<Vec<i64>>,
    n: nat,
    p: (int, int),
)
    requires
        n <= rings.len(),
    ensures
        outline_points(rings, width, reaches, n).contains(p) <==> exists|r: int, i: int|
            0 <= r < n && 0 <= i < rings[r]@.len() && rings[r]@.len() >= 2 && (
            #[trigger] side_at(rings, width, reaches, r, i)).contains(p),
    decreases n,
{
    if n > 0 {
        law_outlines_are_closed(rings, width, reaches, (n - 1) as nat, p);
        let before = outline_points(rings, width, reaches, (n - 1) as nat);
        let ring = rings[n - 1]@;
        let own = ring_reaches_at(reaches, n - 1);
        lemma_contains_concat(before, ring_points(ring, width, own), p);
        lemma_ring_is_closed(rings, width, reaches, n - 1, p);
        if before.contains(p) {
            let (r, i) = choose|r: int, i: int|
                0 <= r < n - 1 && 0 <= i < rings[r]@.len() && rings[r]@.len() >= 2 && (
                #[trigger] side_at(rings, width, reaches, r, i)).contains(p);
            assert(side_at(rings, width, reaches, r, i).contains(p));
        }
        if ring_points(ring, width, own).contains(p) {
            let i = choose|i: int|
                0 <= i < ring.len() && (#[trigger] side_at(
                    rings,
                    width,
                    reaches,
                    n - 1,
                    i,
                )).contains(p);
            assert(side_at(rings, width, reaches, n - 1, i).contains(p));
        }
    }
}

/// The side of a ring from a point to the next, from the last to the first.
pub open spec fn side_at(
    rings: Seq<Vec<Point>>,
    width: Double,
    reaches: Seq<Vec<i64>>,
    r: int,
    i: int,
) -> Seq<(int, int)> {
    let ring = rings[r]@;
    segment(
        ring[i].pixel(),
        if i + 1 < ring.len() {
            ring[i + 1].pixel()
        } else {
            ring[0].pixel()
        },
        width,
        if r < reaches.len() && i < reaches[r]@.len() {
            reaches[r]@[i] as int
        } else {
            0
        },
    )
}

proof fn lemma_ring_is_closed(
    rings: Seq<Vec<Point>>,
    width: Double,
    reaches: Seq<Vec<i64>>,
    r: int,
    p: (int, int),
)
    requires
        0 <= r < rings.len(),
    ensures
        ring_points(rings[r]@, width, ring_reaches_at(reaches, r)).contains(p) <==> rings[r]@.len()
            >= 2 && exists|i: int|
            0 <= i < rings[r]@.len() && (#[trigger] side_at(rings, width, reaches, r, i)).contains(
                p,
            ),
{
    let ring = rings[r]@;
    let own = ring_reaches_at(reaches, r);
    let n = ring.len();
    if n >= 2 {
        let path = pixels_of(ring);
        let open = path_points(path, width, own, n);
        let last = segment(
            ring[n - 1].pixel(),
            ring[0].pixel(),
            width,
            reach_at(own, n - 1),
        );
        lemma_contains_concat(open, last, p);
        law_paths_join_each_point_to_the_next(path, width, own, n, p);
        assert(last == side_at(rings, width, reaches, r, n - 1));
        assert forall|i: int| 0 <= i < n - 1 implies #[trigger] segment_at(path, width, own, i)
            == side_at(rings, width, reaches, r, i) by {}
        if open.contains(p) {
            let i = choose|i: int|
                0 <= i < n - 1 && (#[trigger] segment_at(path, width, own, i)).contains(p);
            assert(side_at(rings, width, reaches, r, i).contains(p));
        }
        if exists|i: int|
            0 <= i < n && (#[trigger] side_at(rings, width, reaches, r, i)).contains(p) {
            let i = choose|i: int|
                0 <= i < n && (#[trigger] side_at(rings, width, reaches, r, i)).contains(p);
            if i < n - 1 {
                assert(segment_at(path, width, own, i).contains(p));
            }
        }
    }
}

// -- Where wide lines run --------------------------------------------------

/// How far a pixel is from the start of a line, on each axis in the direction of
/// the line: to the right and down where that is where the line goes, else to
/// the left and up.
pub open spec fn way_to(from: (int, int), to: (int, int), p: (int, int)) -> (int, int) {
    (
        if from.0 < to.0 {
            p.0 - from.0
        } else {
            from.0 - p.0
        },
        if from.1 < to.1 {
            p.1 - from.1
        } else {
            from.1 - p.1
        },
    )
}

/// Whether `a` and `b` steps lead to a pixel of the middle of a line of `dx` and
/// `dy` steps: of each step on the longer axis the one that the line passes half
/// a step later.
pub open spec fn is_in_the_middle(dx: int, dy: int, a: int, b: int) -> bool {
    if dx >= dy {
        0 <= a <= dx && 2 * dx * b <= dy * (2 * a + 1) < 2 * dx * (b + 1)
    } else {
        0 <= b <= dy && 2 * dy * a <= dx * (2 * b + 1) < 2 * dy * (a + 1)
    }
}

/// Whether `a` and `b` steps lead to a pixel beside a line of `dx` and `dy` steps:
/// its distance times the length of the line is below the reach.
pub open spec fn is_within_reach(dx: int, dy: int, a: int, b: int, reach: int) -> bool {
    -reach < dx * b - dy * a < reach
}

/// The state of a wide line after `i` and `j` steps.
spec fn is_under_way(line: WideLine, lx: int, ly: int, err: int) -> bool {
    let (i, j) = (line.dx - lx, line.dy - ly);
    &&& line.dx >= 0 && line.dy >= 0 && line.dx + line.dy > 0
    &&& 0 <= lx <= line.dx && 0 <= ly <= line.dy
    &&& err == line.dx * (1 + j) - line.dy * (1 + i)
    &&& is_in_the_middle(line.dx, line.dy, i, j)
}

/// What the next state of a wide line is, where it goes on.
proof fn lemma_under_way(line: WideLine, lx: int, ly: int, err: int)
    requires
        is_under_way(line, lx, ly, err),
    ensures
        line.dx >= line.dy ==> line.steps_right(err),
        line.dx < line.dy ==> line.steps_down(err),
        line.steps_right(err) && lx == 0 ==> line.dx >= line.dy || ly == 0,
        !(line.steps_right(err) && lx == 0) && line.steps_down(err) && ly == 0 ==> line.dx < line.dy,
        !(line.steps_right(err) && lx == 0) && !(line.steps_down(err) && ly == 0) ==> is_under_way(
            line,
            if line.steps_right(err) {
                lx - 1
            } else {
                lx
            },
            if line.steps_down(err) {
                ly - 1
            } else {
                ly
            },
            (if line.steps_right(err) {
                err - line.dy
            } else {
                err
            }) + (if line.steps_down(err) {
                line.dx
            } else {
                0
            }),
        ),
{
    let (dx, dy) = (line.dx, line.dy);
    let (i, j) = (dx - lx, dy - ly);
    let (xi, yj) = (dy * i, dx * j);
    assert(dx * (1 + j) == dx + yj && dy * (1 + i) == dy + xi && dy * (2 * i + 1) == 2 * xi + dy
        && dx * (2 * j + 1) == 2 * yj + dx && 2 * dx * j == 2 * yj && 2 * dx * (j + 1) == 2 * yj + 2
        * dx && 2 * dy * i == 2 * xi && 2 * dy * (i + 1) == 2 * xi + 2 * dy) by (nonlinear_arith)
        requires
            xi == dy * i,
            yj == dx * j,
    ;
    assert(dx * (1 + (j + 1)) == 2 * dx + yj && dy * (1 + (i + 1)) == 2 * dy + xi && dy * (2 * (i
        + 1) + 1) == 2 * xi + 3 * dy && dx * (2 * (j + 1) + 1) == 2 * yj + 3 * dx && 2 * dx * (j + 1
        + 1) == 2 * yj + 4 * dx && 2 * dy * (i + 1 + 1) == 2 * xi + 4 * dy) by (nonlinear_arith)
        requires
            xi == dy * i,
            yj == dx * j,
    ;
    if dx >= dy {
        if line.steps_down(err) && ly == 0 && lx > 0 {
            assert(false) by (nonlinear_arith)
                requires
                    2 * (dx + yj) - 2 * (dy + xi) <= dy,
                    xi == dy * i,
                    yj == dx * dy,
                    i <= dx - 1,
                    dx >= dy,
                    dy >= 0,
                    dx > 0,
            ;
        }
    } else {
        if line.steps_right(err) && lx == 0 && ly > 0 {
            if dx == 0 {
                assert(yj == 0) by (nonlinear_arith)
                    requires
                        yj == dx * j,
                        dx == 0,
                ;
                assert(xi == 0) by (nonlinear_arith)
                    requires
                        xi == dy * i,
                        i == 0,
                ;
            } else {
                assert(false) by (nonlinear_arith)
                    requires
                        2 * xi <= 2 * yj + dx,
                        xi == dy * dx,
                        yj == dx * j,
                        j <= dy - 1,
                        dx > 0,
                ;
            }
        }
    }
}

/// The steps of a spread stay below the reach.
proof fn lemma_spread_reach(
    err: int,
    growth: int,
    left: int,
    past_end: bool,
    reach: int,
    k: int,
)
    requires
        0 <= k < spread(err, growth, left, past_end, reach),
    ensures
        err + k * growth < reach,
        past_end || k < left,
    decreases k,
{
    if k > 0 {
        lemma_spread_reach(err + growth, growth, left - 1, past_end, reach, k - 1);
        assert(err + growth + (k - 1) * growth == err + k * growth) by (nonlinear_arith);
    } else {
        assert(0 * growth == 0) by (nonlinear_arith);
    }
}

/// The pixel that `a` and `b` steps lead to.
spec fn stepped(line: WideLine, a: int, b: int) -> (int, int) {
    line.at(line.dx - a, line.dy - b)
}

spec fn belongs_to(line: WideLine, p: (int, int), a: int, b: int) -> bool {
    &&& p == stepped(line, a, b)
    &&& a >= 0 && b >= 0
    &&& is_in_the_middle(line.dx, line.dy, a, b) || is_within_reach(
        line.dx,
        line.dy,
        a,
        b,
        line.reach,
    )
}

/// The pixels that are painted at one state of a wide line.
proof fn lemma_wide_here(line: WideLine, lx: int, ly: int, err: int, p: (int, int)) -> (r: (
    int,
    int,
))
    requires
        is_under_way(line, lx, ly, err),
        p == line.at(lx, ly) || line.column(lx, ly, err).contains(p) || line.row(
            lx,
            ly,
            err,
        ).contains(p),
    ensures
        belongs_to(line, p, r.0, r.1),
{
    let (dx, dy) = (line.dx, line.dy);
    let (i, j) = (dx - lx, dy - ly);
    if p == line.at(lx, ly) {
        (i, j)
    } else if line.column(lx, ly, err).contains(p) {
        let column = line.column(lx, ly, err);
        let k = choose|k: int| 0 <= k < column.len() && column[k] == p;
        lemma_spread_reach(err + dy, dx, ly, dx > dy, line.reach, k);
        let b = j + k + 1;
        assert(err + dy + k * dx == dx * b - dy * i) by (nonlinear_arith)
            requires
                err == dx * (1 + j) - dy * (1 + i),
                b == j + k + 1,
        ;
        assert(dx * b - dy * i > 0) by (nonlinear_arith)
            requires
                line.steps_right(err),
                2 * err >= -dx,
                err == dx * (1 + j) - dy * (1 + i),
                b >= j + 1,
                dx >= 0,
                dy >= 0,
                dx + dy > 0,
                dx >= dy ==> dy * (2 * i + 1) < 2 * dx * (j + 1),
                dx < dy || dx >= dy,
        ;
        (i, b)
    } else {
        let row = line.row(lx, ly, err);
        let k = choose|k: int| 0 <= k < row.len() && row[k] == p;
        lemma_spread_reach(dx - err, dy, lx, dx < dy, line.reach, k);
        let a = i + k + 1;
        assert(dx - err + k * dy == dy * a - dx * j) by (nonlinear_arith)
            requires
                err == dx * (1 + j) - dy * (1 + i),
                a == i + k + 1,
        ;
        assert(dy * a - dx * j > 0) by (nonlinear_arith)
            requires
                2 * err <= dy,
                err == dx * (1 + j) - dy * (1 + i),
                a >= i + 1,
                dx >= 0,
                dy >= 0,
                dx + dy > 0,
                dx < dy ==> dx * (2 * j + 1) < 2 * dy * (i + 1),
                dx < dy || dx >= dy,
        ;
        (a, j)
    }
}

/// All pixels of a wide line belong to it.
proof fn lemma_wide_points(line: WideLine, lx: int, ly: int, err: int, p: (int, int)) -> (r: (
    int,
    int,
))
    requires
        is_under_way(line, lx, ly, err),
        line.points_from(lx, ly, err).contains(p),
    ensures
        belongs_to(line, p, r.0, r.1),
    decreases lx + ly,
{
    lemma_under_way(line, lx, ly, err);
    let column = line.column(lx, ly, err);
    let row = line.row(lx, ly, err);
    let here = seq![line.at(lx, ly)] + column;
    lemma_contains_concat(seq![line.at(lx, ly)], column, p);
    lemma_contains_concat(here, row, p);
    if here.contains(p) {
        if !column.contains(p) {
            let k = choose|k: int|
                0 <= k < seq![line.at(lx, ly)].len() && seq![line.at(lx, ly)][k] == p;
            assert(p == line.at(lx, ly));
        }
        lemma_wide_here(line, lx, ly, err, p)
    } else {
        let lx1 = if line.steps_right(err) {
            lx - 1
        } else {
            lx
        };
        let err1 = if line.steps_right(err) {
            err - line.dy
        } else {
            err
        };
        if line.steps_down(err) {
            if row.contains(p) {
                lemma_wide_here(line, lx, ly, err, p)
            } else {
                let rest = line.points_from(lx1, ly - 1, err1 + line.dx);
                lemma_contains_concat(here + row, rest, p);
                lemma_wide_points(line, lx1, ly - 1, err1 + line.dx, p)
            }
        } else {
            let rest = line.points_from(lx1, ly, err1);
            lemma_contains_concat(here, rest, p);
            lemma_wide_points(line, lx1, ly, err1, p)
        }
    }
}

/// The middle of a wide line is painted from each of its states on.
proof fn lemma_wide_middle(line: WideLine, lx: int, ly: int, err: int, a: int, b: int)
    requires
        is_under_way(line, lx, ly, err),
        is_in_the_middle(line.dx, line.dy, a, b),
        a >= line.dx - lx,
        b >= line.dy - ly,
    ensures
        line.points_from(lx, ly, err).contains(stepped(line, a, b)),
    decreases lx + ly,
{
    lemma_under_way(line, lx, ly, err);
    let (dx, dy) = (line.dx, line.dy);
    let (i, j) = (dx - lx, dy - ly);
    let p = stepped(line, a, b);
    let column = line.column(lx, ly, err);
    let row = line.row(lx, ly, err);
    let here = seq![line.at(lx, ly)] + column;
    let all = line.points_from(lx, ly, err);
    if (dx >= dy && a == i) || (dx < dy && b == j) {
        assert(a == i && b == j) by {
            lemma_middle_is_one(dx, dy, a, b, i, j);
        }
        assert(here[0] == p);
        assert(all[0] == p);
    } else {
        let lx1 = if line.steps_right(err) {
            lx - 1
        } else {
            lx
        };
        let ly1 = if line.steps_down(err) {
            ly - 1
        } else {
            ly
        };
        let err1 = if line.steps_right(err) {
            err - line.dy
        } else {
            err
        };
        let rest = if line.steps_down(err) {
            line.points_from(lx1, ly1, err1 + dx)
        } else {
            line.points_from(lx1, ly1, err1)
        };
        lemma_middle_is_monotone(dx, dy, dx - lx1, dy - ly1, a, b);
        if line.steps_down(err) {
            lemma_wide_middle(line, lx1, ly1, err1 + dx, a, b);
            lemma_contains_concat(here + row, rest, p);
        } else {
            lemma_wide_middle(line, lx1, ly1, err1, a, b);
            lemma_contains_concat(here, rest, p);
        }
    }
}

proof fn lemma_middle_is_one(dx: int, dy: int, a: int, b: int, i: int, j: int)
    requires
        dx + dy > 0,
        dx >= 0,
        dy >= 0,
        is_in_the_middle(dx, dy, a, b),
        is_in_the_middle(dx, dy, i, j),
        (dx >= dy && a == i) || (dx < dy && b == j),
    ensures
        a == i,
        b == j,
{
    if dx >= dy {
        assert(b == j) by (nonlinear_arith)
            requires
                dx > 0,
                2 * dx * b < 2 * dx * (j + 1),
                2 * dx * j < 2 * dx * (b + 1),
        ;
    } else {
        assert(a == i) by (nonlinear_arith)
            requires
                dy > 0,
                2 * dy * a < 2 * dy * (i + 1),
                2 * dy * i < 2 * dy * (a + 1),
        ;
    }
}

/// Further along the longer axis the middle is no less far along the other.
proof fn lemma_middle_is_monotone(dx: int, dy: int, i: int, j: int, a: int, b: int)
    requires
        dx + dy > 0,
        dx >= 0,
        dy >= 0,
        is_in_the_middle(dx, dy, a, b),
        is_in_the_middle(dx, dy, i, j),
        (dx >= dy && a >= i) || (dx < dy && b >= j),
    ensures
        a >= i,
        b >= j,
{
    if dx >= dy {
        assert(b >= j) by (nonlinear_arith)
            requires
                dx > 0,
                dy >= 0,
                a >= i,
                2 * dx * j <= dy * (2 * i + 1),
                dy * (2 * a + 1) < 2 * dx * (b + 1),
        ;
    } else {
        assert(a >= i) by (nonlinear_arith)
            requires
                dy > 0,
                dx >= 0,
                b >= j,
                2 * dy * i <= dx * (2 * j + 1),
                dx * (2 * b + 1) < 2 * dy * (a + 1),
        ;
    }
}

proof fn lemma_wide_start(from: (int, int), to: (int, int), reach: int)
    requires
        from != to,
    ensures
        ({
            let line = WideLine::between(from, to, reach);
            is_under_way(line, line.dx, line.dy, line.dx - line.dy)
        }),
{
    let (dx, dy) = (distance(from.0, to.0), distance(from.1, to.1));
    assert(dx * (1 + 0) == dx && dy * (1 + 0) == dy && 2 * dx * 0 == 0 && 2 * dy * 0 == 0 && dy * (2
        * 0 + 1) == dy && dx * (2 * 0 + 1) == dx && 2 * dx * (0 + 1) == 2 * dx && 2 * dy * (0 + 1)
        == 2 * dy) by (nonlinear_arith);
}

/// Every pixel of a wide line is one of its middle or within its reach: its
/// distance from the line, times the length of the line, is below the reach. And
/// no pixel of the middle is left out, from the one end to the other.
pub proof fn law_wide_lines_stay_within_reach(
    from: (int, int),
    to: (int, int),
    width: Double,
    reach: int,
    p: (int, int),
)
    requires
        is_wide(width),
        from != to,
    ensures
        ({
            let (dx, dy) = (distance(from.0, to.0), distance(from.1, to.1));
            let (a, b) = way_to(from, to, p);
            &&& segment(from, to, width, reach).contains(p) ==> a >= 0 && b >= 0 && (
            is_in_the_middle(dx, dy, a, b) || is_within_reach(dx, dy, a, b, reach))
            &&& is_in_the_middle(dx, dy, a, b) && a >= 0 && b >= 0 ==> segment(
                from,
                to,
                width,
                reach,
            ).contains(p)
        }),
{
    let line = WideLine::between(from, to, reach);
    lemma_wide_start(from, to, reach);
    let (a, b) = way_to(from, to, p);
    if segment(from, to, width, reach).contains(p) {
        let (i, j) = lemma_wide_points(line, line.dx, line.dy, line.dx - line.dy, p);
        assert(i == a && j == b);
    }
    if is_in_the_middle(line.dx, line.dy, a, b) && a >= 0 && b >= 0 {
        lemma_wide_middle(line, line.dx, line.dy, line.dx - line.dy, a, b);
        assert(stepped(line, a, b) == p);
    }
}

/// A spread goes on as long as it stays below the reach.
proof fn lemma_spread_goes_on(
    err: int,
    growth: int,
    left: int,
    past_end: bool,
    reach: int,
    k: int,
)
    requires
        0 <= k,
        growth >= 0,
        err + k * growth < reach,
        if past_end {
            growth > 0
        } else {
            k < left
        },
    ensures
        k < spread(err, growth, left, past_end, reach),
    decreases k,
{
    assert(err <= err + k * growth) by (nonlinear_arith)
        requires
            0 <= k,
            growth >= 0,
    ;
    if k > 0 {
        assert(err + growth + (k - 1) * growth == err + k * growth) by (nonlinear_arith);
        lemma_spread_goes_on(err + growth, growth, left - 1, past_end, reach, k - 1);
    }
}

/// A pixel above or below the middle of a wide line that is within its reach.
proof fn lemma_column_covers(line: WideLine, lx: int, ly: int, err: int, b: int)
    requires
        is_under_way(line, lx, ly, err),
        line.steps_right(err),
        b > line.dy - ly,
        line.dx <= line.dy ==> b <= line.dy,
        is_within_reach(line.dx, line.dy, line.dx - lx, b, line.reach),
    ensures
        line.column(lx, ly, err).contains(stepped(line, line.dx - lx, b)),
{
    let (dx, dy) = (line.dx, line.dy);
    let (i, j) = (dx - lx, dy - ly);
    let k = b - j - 1;
    assert(err + dy + k * dx == dx * b - dy * i) by (nonlinear_arith)
        requires
            err == dx * (1 + j) - dy * (1 + i),
            k == b - j - 1,
    ;
    lemma_spread_goes_on(err + dy, dx, ly, dx > dy, line.reach, k);
    assert(line.column(lx, ly, err)[k] == stepped(line, i, b));
}

/// A pixel left or right of the middle of a wide line that is within its reach.
proof fn lemma_row_covers(line: WideLine, lx: int, ly: int, err: int, a: int)
    requires
        is_under_way(line, lx, ly, err),
        line.steps_down(err),
        a > line.dx - lx,
        line.dx >= line.dy ==> a <= line.dx,
        is_within_reach(line.dx, line.dy, a, line.dy - ly, line.reach),
    ensures
        line.row(lx, ly, err).contains(stepped(line, a, line.dy - ly)),
{
    let (dx, dy) = (line.dx, line.dy);
    let (i, j) = (dx - lx, dy - ly);
    let k = a - i - 1;
    assert(dx - err + k * dy == dy * a - dx * j) by (nonlinear_arith)
        requires
            err == dx * (1 + j) - dy * (1 + i),
            k == a - i - 1,
    ;
    lemma_spread_goes_on(dx - err, dy, lx, dx < dy, line.reach, k);
    assert(line.row(lx, ly, err)[k] == stepped(line, a, j));
}

/// Whether `a` and `b` steps lead to a pixel between the ends of a line on its
/// longer axis, and where the line is diagonal on both. Of a line that is higher
/// than wide the last row does not count.
pub open spec fn is_between_ends(dx: int, dy: int, a: int, b: int) -> bool {
    &&& a >= 0 && b >= 0
    &&& dx >= dy ==> a <= dx
    &&& dx < dy ==> b < dy
    &&& dx == dy ==> b <= dy
}

proof fn lemma_wide_covers(line: WideLine, lx: int, ly: int, err: int, a: int, b: int)
    requires
        is_under_way(line, lx, ly, err),
        is_between_ends(line.dx, line.dy, a, b),
        is_within_reach(line.dx, line.dy, a, b, line.reach),
        a >= line.dx - lx,
        b >= line.dy - ly,
    ensures
        line.points_from(lx, ly, err).contains(stepped(line, a, b)),
    decreases lx + ly,
{
    lemma_under_way(line, lx, ly, err);
    let (dx, dy) = (line.dx, line.dy);
    let (i, j) = (dx - lx, dy - ly);
    let p = stepped(line, a, b);
    let column = line.column(lx, ly, err);
    let row = line.row(lx, ly, err);
    let here = seq![line.at(lx, ly)] + column;
    let all = line.points_from(lx, ly, err);
    let (right, down) = (line.steps_right(err), line.steps_down(err));
    let lx1 = if right {
        lx - 1
    } else {
        lx
    };
    let ly1 = if down {
        ly - 1
    } else {
        ly
    };
    let err1 = if right {
        err - line.dy
    } else {
        err
    };
    if a == i && b == j {
        assert(here[0] == p);
        assert(all[0] == p);
    } else if a == i && right {
        lemma_column_covers(line, lx, ly, err, b);
        lemma_contains_concat(seq![line.at(lx, ly)], column, p);
        lemma_contains_concat(here, row, p);
        if lx == 0 {
            assert(all == here);
        } else if down {
            if ly > 0 {
                lemma_contains_concat(here + row, line.points_from(lx1, ly1, err1 + dx), p);
            }
        } else {
            lemma_contains_concat(here, line.points_from(lx1, ly1, err1), p);
        }
    } else if b == j && down {
        assert(!(right && lx == 0));
        lemma_row_covers(line, lx, ly, err, a);
        lemma_contains_concat(here, row, p);
        if ly > 0 {
            lemma_contains_concat(here + row, line.points_from(lx1, ly1, err1 + dx), p);
        }
    } else {
        assert(!(right && lx == 0) && !(down && ly == 0));
        if down {
            lemma_wide_covers(line, lx1, ly1, err1 + dx, a, b);
            lemma_contains_concat(here + row, line.points_from(lx1, ly1, err1 + dx), p);
        } else {
            lemma_wide_covers(line, lx1, ly1, err1, a, b);
            lemma_contains_concat(here, line.points_from(lx1, ly1, err1), p);
        }
    }
}

/// A wide line paints every pixel between its ends that is within its reach.
pub proof fn law_wide_lines_paint_all_within_reach(
    from: (int, int),
    to: (int, int),
    width: Double,
    reach: int,
    p: (int, int),
)
    requires
        is_wide(width),
        from != to,
        ({
            let (dx, dy) = (distance(from.0, to.0), distance(from.1, to.1));
            let (a, b) = way_to(from, to, p);
            is_between_ends(dx, dy, a, b) && is_within_reach(dx, dy, a, b, reach)
        }),
    ensures
        segment(from, to, width, reach).contains(p),
{
    let line = WideLine::between(from, to, reach);
    lemma_wide_start(from, to, reach);
    let (a, b) = way_to(from, to, p);
    lemma_wide_covers(line, line.dx, line.dy, line.dx - line.dy, a, b);
    assert(stepped(line, a, b) == p);
}

/// A list of pixels has the column of each pixel first and its row second.
pub proof fn law_pixels_are_column_and_row(pixels: Seq<(i32, i32)>, points: Seq<Point>, i: int)
    ensures
        pixel_ints(pixels).len() == pixels.len(),
        0 <= i < pixels.len() ==> pixel_ints(pixels)[i].0 == pixels[i].0 && pixel_ints(pixels)[i].1
            == pixels[i].1,
        pixels_of(points).len() == points.len(),
        0 <= i < points.len() ==> pixels_of(points)[i].0 == points[i].x.as_i32() && pixels_of(
            points,
        )[i].1 == points[i].y.as_i32(),
{
}

/// A line is wide if its width is greater than 1.
pub proof fn law_wide_lines_are_wider_than_a_pixel(width: Double)
    ensures
        !width.nan() ==> (is_wide(width) <==> width.value() > one()),
        width.nan() ==> !is_wide(width),
{
}

} // verus!
