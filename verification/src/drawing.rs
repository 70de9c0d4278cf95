//! How a single feature is drawn: from projected points to pixels.

use crate::arithmetic::{
    difference_of, lemma_moderate_difference, lemma_negated, lemma_whole_double, lemma_whole_sums,
};
use crate::braille_buffer::{ColorIdx, Grid};
use crate::canvas::{
    is_in_cell_of, is_wide, law_paint_colors_its_pixels, law_thin_lines_clear_their_cells,
    lemma_paint_push, path_points, pixel_ints, Point,
};
use crate::config::{layer_override, ConfigModel, LayerConfig};
use crate::double::{double_of, law_integers_are_exact, one, Double};
use crate::fill::{are_rows_of, polygon_edges, scan_points, ScanRow};
use crate::label_buffer::{try_place, LabelEntry};
use crate::renderer::{Renderer, TILE_PADDING};
use crate::text::{byte_len, char_text, text_eq, utf8_len};
use crate::tile::{FeatureModel, TileFeature};
use std::collections::HashSet;
use vstd::hash_set::StringHashSet;
use vstd::prelude::*;

verus! {

// -- Reduction -------------------------------------------------------------

/// Whether a pixel is outside the padded viewport.
pub open spec fn is_outside(p: (int, int), width: int, height: int) -> bool {
    ||| p.0 < -TILE_PADDING
    ||| p.0 > width + TILE_PADDING
    ||| p.1 < -TILE_PADDING
    ||| p.1 > height + TILE_PADDING
}

/// A path under reduction: what is kept of it, the last point that differs from
/// the one before it, and whether the path is outside the viewport.
pub struct Trail {
    pub kept: Seq<(int, int)>,
    pub last: Option<(int, int)>,
    pub outside: bool,
}

impl Trail {
    pub open spec fn start() -> Trail {
        Trail { kept: Seq::empty(), last: None, outside: false }
    }

    /// What is kept once the path comes back inside: the last point outside too.
    pub open spec fn rejoined(self) -> Seq<(int, int)> {
        match self.last {
            Some(l) if self.outside && self.kept.last() != l => self.kept.push(l),
            _ => self.kept,
        }
    }

    /// The trail with one more point. A repeated point is dropped. Of the points
    /// outside the viewport that follow each other the first and the last are
    /// kept, so that no gap opens at the boundary.
    pub open spec fn step(self, p: (int, int), width: int, height: int) -> Trail {
        if self.last == Some(p) {
            self
        } else if is_outside(p, width, height) {
            Trail {
                kept: if self.outside {
                    self.kept
                } else {
                    self.kept.push(p)
                },
                last: Some(p),
                outside: true,
            }
        } else {
            Trail {
                kept: self.rejoined().push(p),
                last: Some(p),
                outside: false,
            }
        }
    }
}

/// The trail of the first `n` points of a path.
pub open spec fn trail(path: Seq<(int, int)>, width: int, height: int, n: nat) -> Trail
    decreases n,
{
    if n == 0 {
        Trail::start()
    } else {
        trail(path, width, height, (n - 1) as nat).step(path[n - 1], width, height)
    }
}

/// A path without repeated points and without what is outside the padded
/// viewport.
pub open spec fn reduced(path: Seq<(int, int)>, width: int, height: int) -> Seq<(int, int)> {
    trail(path, width, height, path.len()).kept
}

/// A path within the viewport that never stands still is kept as it is.
pub proof fn law_visible_paths_stay(path: Seq<(int, int)>, width: int, height: int, n: nat)
    requires
        n <= path.len(),
        forall|i: int| 0 <= i < path.len() ==> !is_outside(#[trigger] path[i], width, height),
        forall|i: int, j: int|
            0 <= i && j == i + 1 && j < path.len() ==> #[trigger] path[i] != #[trigger] path[j],
    ensures
        trail(path, width, height, n).kept == path.take(n as int),
        n == path.len() ==> reduced(path, width, height) == path,
    decreases n,
{
    lemma_visible_trail(path, width, height, n);
    assert(path.take(path.len() as int) =~= path);
}

proof fn lemma_visible_trail(path: Seq<(int, int)>, width: int, height: int, n: nat)
    requires
        n <= path.len(),
        forall|i: int| 0 <= i < path.len() ==> !is_outside(#[trigger] path[i], width, height),
        forall|i: int, j: int|
            0 <= i && j == i + 1 && j < path.len() ==> #[trigger] path[i] != #[trigger] path[j],
    ensures
        trail(path, width, height, n).kept == path.take(n as int),
        !trail(path, width, height, n).outside,
        trail(path, width, height, n).last == if n == 0 {
            None
        } else {
            Some(path[n - 1])
        },
    decreases n,
{
    if n > 0 {
        lemma_visible_trail(path, width, height, (n - 1) as nat);
        assert(path.take(n as int) =~= path.take(n - 1).push(path[n - 1]));
        if n > 1 {
            assert(path[n - 2] != path[n - 1]);
        }
    } else {
        assert(path.take(0) =~= Seq::empty());
    }
}

/// How a trail stands after `n` points.
proof fn lemma_trail_state(path: Seq<(int, int)>, width: int, height: int, n: nat)
    requires
        n <= path.len(),
    ensures
        ({
            let t = trail(path, width, height, n);
            &&& n == 0 ==> t == Trail::start()
            &&& n > 0 ==> t.last == Some(path[n - 1]) && t.kept.len() > 0 && t.outside
                == is_outside(path[n - 1], width, height) && is_outside(t.kept.last(), width, height)
                == t.outside
            &&& n > 0 && !t.outside ==> t.kept.last() == path[n - 1]
        }),
    decreases n,
{
    if n > 0 {
        lemma_trail_state(path, width, height, (n - 1) as nat);
    }
}

/// A reduced path never stands still.
pub proof fn law_reduced_paths_repeat_nothing(
    path: Seq<(int, int)>,
    width: int,
    height: int,
    i: int,
)
    requires
        0 < i < reduced(path, width, height).len(),
    ensures
        reduced(path, width, height)[i - 1] != reduced(path, width, height)[i],
{
    lemma_trail_moves(path, width, height, path.len(), i);
}

proof fn lemma_trail_moves(path: Seq<(int, int)>, width: int, height: int, n: nat, i: int)
    requires
        n <= path.len(),
        0 < i < trail(path, width, height, n).kept.len(),
    ensures
        trail(path, width, height, n).kept[i - 1] != trail(path, width, height, n).kept[i],
    decreases n,
{
    if n > 0 {
        let before = trail(path, width, height, (n - 1) as nat);
        lemma_trail_state(path, width, height, (n - 1) as nat);
        lemma_trail_state(path, width, height, n);
        if i < before.kept.len() {
            lemma_trail_moves(path, width, height, (n - 1) as nat, i);
        }
    }
}

/// A segment of a path with an end within the padded viewport is kept whole:
/// points at the boundary are there, so that no gap opens.
pub proof fn law_segments_at_the_viewport_are_kept(
    path: Seq<(int, int)>,
    width: int,
    height: int,
    i: int,
)
    requires
        0 < i < path.len(),
        path[i - 1] != path[i],
        !is_outside(path[i - 1], width, height) || !is_outside(path[i], width, height),
    ensures
        exists|k: int|
            0 < k < reduced(path, width, height).len() && reduced(path, width, height)[k - 1]
                == path[i - 1] && #[trigger] reduced(path, width, height)[k] == path[i],
{
    lemma_segment_is_kept(path, width, height, path.len(), i);
    let kept = trail(path, width, height, path.len()).kept;
    let k = choose|k: int|
        0 < k < kept.len() && kept[k - 1] == path[i - 1] && #[trigger] kept[k] == path[i];
    assert(reduced(path, width, height)[k] == path[i]);
}

proof fn lemma_segment_is_kept(path: Seq<(int, int)>, width: int, height: int, n: nat, i: int)
    requires
        0 < i < n <= path.len(),
        path[i - 1] != path[i],
        !is_outside(path[i - 1], width, height) || !is_outside(path[i], width, height),
    ensures
        exists|k: int|
            0 < k < trail(path, width, height, n).kept.len() && trail(path, width, height, n).kept[k
                - 1] == path[i - 1] && #[trigger] trail(path, width, height, n).kept[k] == path[i],
    decreases n,
{
    let before = trail(path, width, height, (n - 1) as nat);
    let after = trail(path, width, height, n);
    lemma_trail_state(path, width, height, (n - 1) as nat);
    if i == n - 1 {
        let k = after.kept.len() - 1;
        assert(after.kept[k - 1] == path[i - 1] && after.kept[k] == path[i]);
    } else {
        lemma_segment_is_kept(path, width, height, (n - 1) as nat, i);
        let k = choose|k: int|
            0 < k < before.kept.len() && before.kept[k - 1] == path[i - 1]
                && #[trigger] before.kept[k] == path[i];
        assert(after.kept[k - 1] == path[i - 1] && after.kept[k] == path[i]);
    }
}

fn is_outside_pixel(p: (i32, i32), width: usize, height: usize) -> (r: bool)
    requires
        width <= i32::MAX,
        height <= i32::MAX,
    ensures
        r == is_outside((p.0 as int, p.1 as int), width as int, height as int),
{
    (p.0 as i64) < -TILE_PADDING || p.0 as i64 > width as i64 + TILE_PADDING || (p.1 as i64)
        < -TILE_PADDING || p.1 as i64 > height as i64 + TILE_PADDING
}

/// Remove duplicates from a path and cull points outside the padded viewport
/// (but boundary points are kept to avoid gaps).
pub fn reduce(path: &Vec<(i32, i32)>, width: usize, height: usize) -> (r: Vec<(i32, i32)>)
    requires
        width <= i32::MAX,
        height <= i32::MAX,
    ensures
        pixel_ints(r@) == reduced(pixel_ints(path@), width as int, height as int),
{
    let mut kept: Vec<(i32, i32)> = Vec::new();
    let mut last: Option<(i32, i32)> = None;
    let mut outside: bool = false;
    let ghost points = pixel_ints(path@);
    assert(pixel_ints(kept@) =~= Seq::empty());
    let mut i: usize = 0;
    while i < path.len()
        invariant
            i <= path@.len(),
            width <= i32::MAX,
            height <= i32::MAX,
            points == pixel_ints(path@),
            ({
                let t = trail(points, width as int, height as int, i as nat);
                &&& pixel_ints(kept@) == t.kept
                &&& outside == t.outside
                &&& match last {
                    Some(p) => t.last == Some((p.0 as int, p.1 as int)),
                    None => t.last is None,
                }
            }),
        decreases path@.len() - i,
    {
        let p: (i32, i32) = path[i];
        let ghost before = pixel_ints(kept@);
        let ghost q = (p.0 as int, p.1 as int);
        assert(points[i as int] == q);
        let repeated: bool = match last {
            Some(l) => l.0 == p.0 && l.1 == p.1,
            None => false,
        };
        if !repeated {
            if is_outside_pixel(p, width, height) {
                if !outside {
                    kept.push(p);
                    assert(pixel_ints(kept@) =~= before.push(q));
                }
                outside = true;
            } else {
                if outside {
                    outside = false;
                    if let Some(l) = last {
                        proof {
                            lemma_trail_state(points, width as int, height as int, i as nat);
                        }
                        let end: (i32, i32) = kept[kept.len() - 1];
                        if end.0 != l.0 || end.1 != l.1 {
                            kept.push(l);
                            assert(pixel_ints(kept@) =~= before.push((l.0 as int, l.1 as int)));
                        }
                    }
                }
                let ghost middle = pixel_ints(kept@);
                kept.push(p);
                assert(pixel_ints(kept@) =~= middle.push(q));
            }
            last = Some(p);
        }
        i = i + 1;
    }
    kept
}

/// The number of distinct positions along a ring.
pub open spec fn unique_points(ring: Seq<(i32, i32)>) -> nat {
    ring.to_set().len()
}

/// A number for a position, with which no other shares it.
pub open spec fn position_key(p: (i32, i32)) -> int {
    (p.0 + 0x8000_0000) * 0x1_0000_0000 + (p.1 + 0x8000_0000)
}

/// Count distinct (x,y) positions in a scaled ring. A point that closes the ring
/// counts once, with the first.
pub fn unique_point_count(ring: &Vec<(i32, i32)>) -> (r: usize)
    ensures
        r == unique_points(ring@),
{
    broadcast use vstd::std_specs::hash::group_hash_axioms;

    let mut seen: HashSet<u64> = HashSet::new();
    let mut count: usize = 0;
    let mut i: usize = 0;
    assert(ring@.take(0).to_set() =~= Set::empty());
    while i < ring.len()
        invariant
            i <= ring@.len(),
            count <= i,
            count == ring@.take(i as int).to_set().len(),
            forall|p: (i32, i32), key: u64|
                key == position_key(p) ==> (#[trigger] seen@.contains(key)
                    <==> #[trigger] ring@.take(i as int).to_set().contains(p)),
        decreases ring@.len() - i,
    {
        let p: (i32, i32) = ring[i];
        let key: u64 = (p.0 as i64 + 0x8000_0000) as u64 * 0x1_0000_0000 + (p.1 as i64
            + 0x8000_0000) as u64;
        let ghost before = ring@.take(i as int);
        let ghost keys = seen@;
        proof {
            assert(ring@.take(i + 1) =~= before.push(p));
            assert(before.push(p).to_set() =~= before.to_set().insert(p)) by {
                assert forall|q: (i32, i32)| #[trigger]
                    before.push(p).to_set().contains(q) <==> before.to_set().insert(p).contains(
                        q,
                    ) by {
                    if before.contains(q) {
                        let k = choose|k: int| 0 <= k < before.len() && before[k] == q;
                        assert(before.push(p)[k] == q);
                    }
                    assert(before.push(p)[before.len() as int] == p);
                }
            }
            vstd::seq_lib::seq_to_set_is_finite(before);
        }
        if seen.insert(key) {
            count = count + 1;
        }
        i = i + 1;
    }
    assert(ring@.take(i as int) =~= ring@);
    count
}

// -- Drawings --------------------------------------------------------------

/// A feature on the screen.
#[derive(Debug)]
pub enum Drawing {
    /// Nothing to draw.
    Nothing,
    /// A line through these pixels. For a wide line `reaches` says of each
    /// segment how far it spreads.
    Line { pixels: Vec<(i32, i32)>, reaches: Vec<i64> },
    /// These pixels.
    Dots { pixels: Vec<(i32, i32)> },
    /// A polygon by its rows. `crossings` says for each row where its edges
    /// cross it.
    Fill { rows: Vec<ScanRow>, crossings: Vec<Vec<i32>> },
    /// A label or marker at the first of these pixels that has room for it.
    Symbol { pixels: Vec<(i32, i32)> },
}

impl Drawing {
    /// Whether the numbers that belong to a drawing are there.
    pub open spec fn is_complete(self, line_width: Double) -> bool {
        match self {
            Drawing::Line { pixels, reaches } => is_wide(line_width) ==> reaches@.len() + 1
                >= pixels@.len(),
            Drawing::Fill { rows, crossings } => crossings@.len() == rows@.len(),
            _ => true,
        }
    }

    /// The path that a drawing follows.
    pub open spec fn path(self) -> Seq<(i32, i32)> {
        match self {
            Drawing::Line { pixels, .. } => pixels@,
            Drawing::Symbol { pixels } => pixels@,
            _ => Seq::empty(),
        }
    }

    /// The drawing along the points of its path at these places, once it was
    /// simplified.
    pub fn keep(self, places: &Vec<usize>) -> (r: Drawing)
        requires
            forall|i: int| 0 <= i < places@.len() ==> #[trigger] places@[i] < self.path().len(),
        ensures
            match self {
                Drawing::Line { reaches, .. } => r matches Drawing::Line { pixels, reaches: kept }
                    && pixels@ == Seq::new(
                    places@.len(),
                    |i: int| self.path()[places@[i] as int],
                ) && kept == reaches,
                Drawing::Symbol { .. } => r matches Drawing::Symbol { pixels } && pixels@
                    == Seq::new(places@.len(), |i: int| self.path()[places@[i] as int]),
                _ => r == self,
            },
    {
        match self {
            Drawing::Line { pixels, reaches } => Drawing::Line {
                pixels: select(&pixels, places),
                reaches,
            },
            Drawing::Symbol { pixels } => Drawing::Symbol { pixels: select(&pixels, places) },
            other => other,
        }
    }
}

fn select(pixels: &Vec<(i32, i32)>, places: &Vec<usize>) -> (r: Vec<(i32, i32)>)
    requires
        forall|i: int| 0 <= i < places@.len() ==> #[trigger] places@[i] < pixels@.len(),
    ensures
        r@ == Seq::new(places@.len(), |i: int| pixels@[places@[i] as int]),
{
    let mut selected: Vec<(i32, i32)> = Vec::new();
    let mut i: usize = 0;
    while i < places.len()
        invariant
            i <= places@.len(),
            forall|k: int| 0 <= k < places@.len() ==> #[trigger] places@[k] < pixels@.len(),
            selected@ == Seq::new(i as nat, |k: int| pixels@[places@[k] as int]),
        decreases places@.len() - i,
    {
        selected.push(pixels[places[i]]);
        assert(selected@ =~= Seq::new((i + 1) as nat, |k: int| pixels@[places@[k] as int]));
        i = i + 1;
    }
    selected
}

/// Pixels as points.
pub open spec fn points_at(pixels: Seq<(i32, i32)>) -> Seq<Point> {
    Seq::new(
        pixels.len(),
        |i: int| Point { x: double_of(pixels[i].0 as int), y: double_of(pixels[i].1 as int) },
    )
}

/// Whether rings of points stand at rings of pixels.
pub open spec fn rings_at(points: Seq<Vec<Point>>, rings: Seq<Vec<(i32, i32)>>) -> bool {
    &&& points.len() == rings.len()
    &&& forall|i: int| 0 <= i < rings.len() ==> #[trigger] points[i]@ == points_at(rings[i]@)
}

fn to_points(pixels: &Vec<(i32, i32)>) -> (r: Vec<Point>)
    ensures
        r@ == points_at(pixels@),
{
    let mut points: Vec<Point> = Vec::new();
    let mut i: usize = 0;
    while i < pixels.len()
        invariant
            i <= pixels@.len(),
            points@ == points_at(pixels@.take(i as int)),
        decreases pixels@.len() - i,
    {
        let p: (i32, i32) = pixels[i];
        points.push(Point::new(Double::from_i64(p.0 as i64), Double::from_i64(p.1 as i64)));
        assert(points@ =~= points_at(pixels@.take(i + 1)));
        i = i + 1;
    }
    assert(pixels@.take(i as int) =~= pixels@);
    points
}

fn to_rings(rings: &Vec<Vec<(i32, i32)>>) -> (r: Vec<Vec<Point>>)
    ensures
        rings_at(r@, rings@),
{
    let mut out: Vec<Vec<Point>> = Vec::new();
    let mut i: usize = 0;
    while i < rings.len()
        invariant
            i <= rings@.len(),
            out@.len() == i,
            forall|k: int| 0 <= k < i ==> #[trigger] out@[k]@ == points_at(rings@[k]@),
        decreases rings@.len() - i,
    {
        out.push(to_points(&rings[i]));
        i = i + 1;
    }
    out
}

fn copied(pixels: &Vec<(i32, i32)>) -> (r: Vec<(i32, i32)>)
    ensures
        r@ == pixels@,
{
    let mut out: Vec<(i32, i32)> = Vec::new();
    let mut i: usize = 0;
    while i < pixels.len()
        invariant
            i <= pixels@.len(),
            out@ == pixels@.take(i as int),
        decreases pixels@.len() - i,
    {
        out.push(pixels[i]);
        assert(out@ =~= pixels@.take(i + 1));
        i = i + 1;
    }
    assert(out@ =~= pixels@);
    out
}

impl Renderer {
    /// Whether a drawing shows a feature whose rings stand at these pixels. A
    /// line needs two points, a polygon of less than three distinct points is
    /// drawn point by point.
    pub open spec fn outlines(
        &self,
        style_type: Seq<char>,
        rings: Seq<Vec<(i32, i32)>>,
        drawing: Drawing,
    ) -> bool {
        let (width, height) = (self.width as int, self.height as int);
        if rings.len() == 0 {
            drawing is Nothing
        } else if style_type == "line"@ {
            let path = reduced(pixel_ints(rings[0]@), width, height);
            if path.len() < 2 {
                drawing is Nothing
            } else {
                drawing matches Drawing::Line { pixels, reaches } && pixel_ints(pixels@) == path
                    && reaches@.len() == 0
            }
        } else if style_type == "fill"@ {
            if unique_points(rings[0]@) < 3 {
                drawing matches Drawing::Dots { pixels } && pixels@ == rings[0]@
            } else {
                drawing matches Drawing::Fill { rows, crossings } && crossings@.len() == 0
                    && exists|points: Seq<Vec<Point>>| #[trigger]
                    rings_at(points, rings) && are_rows_of(
                        rows@,
                        polygon_edges(points, points.len()),
                        self.canvas.height as int,
                    )
            }
        } else if style_type == "symbol"@ {
            drawing matches Drawing::Symbol { pixels } && pixel_ints(pixels@) == reduced(
                pixel_ints(rings[0]@),
                width,
                height,
            )
        } else {
            drawing is Nothing
        }
    }

    /// How a feature is drawn whose rings stand at these pixels. What rounds is
    /// left to be filled in: the reaches of a wide line, the crossings of a
    /// polygon.
    pub fn outline(&self, style_type: &str, rings: &Vec<Vec<(i32, i32)>>) -> (r: Drawing)
        requires
            self.wf(),
        ensures
            self.outlines(style_type@, rings@, r),
    {
        proof {
            reveal_strlit("line");
            reveal_strlit("fill");
            reveal_strlit("symbol");
            assert("line"@.len() == 4 && "line"@[0] == 'l');
            assert("fill"@.len() == 4 && "fill"@[0] == 'f');
            assert("symbol"@.len() == 6);
        }
        if rings.len() == 0 {
            return Drawing::Nothing;
        }
        if text_eq(style_type, "line") {
            let pixels: Vec<(i32, i32)> = reduce(&rings[0], self.width, self.height);
            if pixels.len() < 2 {
                Drawing::Nothing
            } else {
                Drawing::Line { pixels, reaches: Vec::new() }
            }
        } else if text_eq(style_type, "fill") {
            if unique_point_count(&rings[0]) < 3 {
                Drawing::Dots { pixels: copied(&rings[0]) }
            } else {
                let points: Vec<Vec<Point>> = to_rings(rings);
                let rows: Vec<ScanRow> = self.canvas.scan_rows(&points);
                assert(rings_at(points@, rings@));
                Drawing::Fill { rows, crossings: Vec::new() }
            }
        } else if text_eq(style_type, "symbol") {
            Drawing::Symbol { pixels: reduce(&rings[0], self.width, self.height) }
        } else {
            Drawing::Nothing
        }
    }

    /// Whether a drawing is to be simplified first.
    pub fn simplifies(&self, drawing: &Drawing) -> (r: bool)
        ensures
            r == (self.config@.simplify_polylines && drawing.path().len() >= 3),
    {
        self.config.simplify_polylines && match drawing {
            Drawing::Line { pixels, .. } => pixels.len() >= 3,
            Drawing::Symbol { pixels } => pixels.len() >= 3,
            _ => false,
        }
    }
}

// -- Scenes ----------------------------------------------------------------

/// A frame under way: the canvas, the labels on it, and the texts that were
/// written.
#[verifier::ext_equal]
pub struct Scene {
    pub grid: Grid,
    pub labels: Seq<LabelEntry>,
    pub seen: Set<Seq<char>>,
}

/// A label that looks for its place.
pub struct Caption {
    pub text: Seq<char>,
    pub marker: Seq<char>,
    pub color: u8,
    pub margin: int,
    /// Whether the marker stands in where there is no room for the text.
    pub cluster: bool,
}

/// Where a text starts that goes with a pixel: a pixel to its left for each byte.
pub open spec fn caption_start(px: int, text: Seq<char>) -> Double {
    difference_of(double_of(px), double_of(utf8_len(text) as int))
}

impl Scene {
    /// The scene with pixels painted.
    pub open spec fn paint(self, pixels: Seq<(int, int)>, color: u8, thin: bool) -> Scene {
        Scene { grid: self.grid.paint(pixels, color, thin), ..self }
    }

    /// The scene with a caption at the first of the pixels from `i` on that has
    /// room: the text to the left of the pixel, or the marker on it.
    pub open spec fn caption_from(self, c: Caption, pixels: Seq<(i32, i32)>, i: nat) -> Scene
        decreases pixels.len() - i,
    {
        if i >= pixels.len() {
            self
        } else {
            let (px, py) = (pixels[i as int].0 as int, pixels[i as int].1 as int);
            let x = caption_start(px, c.text);
            let margin = double_of(c.margin);
            match try_place(self.labels, c.text, (x, double_of(py)), None, margin) {
                Some(labels) => Scene {
                    grid: self.grid.write_text(c.text, x.as_i32(), py, c.color, false),
                    labels,
                    seen: self.seen.insert(c.text),
                },
                None => match try_place(
                    self.labels,
                    c.marker,
                    (double_of(px), double_of(py)),
                    None,
                    double_of(3),
                ) {
                    Some(labels) => if c.cluster {
                        Scene {
                            grid: self.grid.write_text(c.marker, px, py, c.color, false),
                            labels,
                            seen: self.seen.insert(c.text),
                        }
                    } else {
                        self.caption_from(c, pixels, i + 1)
                    },
                    None => self.caption_from(c, pixels, i + 1),
                },
            }
        }
    }

    /// The scene with a drawing of a feature. A text that was written already
    /// is not written again, but for the marker.
    pub open spec fn draw(self, f: FeatureModel, drawing: Drawing, config: ConfigModel) -> Scene {
        match drawing {
            Drawing::Nothing => self,
            Drawing::Line { pixels, reaches } => self.paint(
                path_points(pixel_ints(pixels@), f.line_width, reaches@, pixels@.len()),
                f.color,
                true,
            ),
            Drawing::Dots { pixels } => self.paint(pixel_ints(pixels@), f.color, false),
            Drawing::Fill { rows, crossings } => self.paint(
                scan_points(rows@, crossings@, self.grid.width as int, rows@.len()),
                f.color,
                false,
            ),
            Drawing::Symbol { pixels } => {
                let c = caption_of(f, config);
                if self.seen.contains(c.text) && c.text != c.marker {
                    self
                } else {
                    self.caption_from(c, pixels@, 0)
                }
            },
        }
    }
}

/// The caption of a feature: its label, or the marker for points of interest.
pub open spec fn caption_of(f: FeatureModel, config: ConfigModel) -> Caption {
    let layer = layer_override(config.layers, f.layer);
    Caption {
        text: match f.label {
            Some(label) => label,
            None => seq![config.poi_marker],
        },
        marker: seq![config.poi_marker],
        color: f.color,
        margin: match layer {
            Some(l) => match l.margin {
                Some(m) => m as int,
                None => config.label_margin as int,
            },
            None => config.label_margin as int,
        },
        cluster: match layer {
            Some(l) => l.cluster,
            None => false,
        },
    }
}

/// Drawing a label that was written already changes nothing.
pub proof fn law_labels_are_written_once(
    scene: Scene,
    f: FeatureModel,
    drawing: Drawing,
    config: ConfigModel,
)
    requires
        drawing is Symbol,
        f.label matches Some(label) && scene.seen.contains(label) && label != seq![
            config.poi_marker,
        ],
    ensures
        scene.draw(f, drawing, config) == scene,
{
}

/// Whatever is drawn, labels never overlap.
pub proof fn law_labels_never_overlap(
    scene: Scene,
    f: FeatureModel,
    drawing: Drawing,
    config: ConfigModel,
)
    requires
        crate::label_buffer::disjoint(scene.labels),
    ensures
        crate::label_buffer::disjoint(scene.draw(f, drawing, config).labels),
{
    if let Drawing::Symbol { pixels } = drawing {
        lemma_captions_never_overlap(scene, caption_of(f, config), pixels@, 0);
    }
}

proof fn lemma_captions_never_overlap(scene: Scene, c: Caption, pixels: Seq<(i32, i32)>, i: nat)
    requires
        crate::label_buffer::disjoint(scene.labels),
    ensures
        crate::label_buffer::disjoint(scene.caption_from(c, pixels, i).labels),
    decreases pixels.len() - i,
{
    if i < pixels.len() {
        lemma_captions_never_overlap(scene, c, pixels, i + 1);
        let (px, py) = (pixels[i as int].0 as int, pixels[i as int].1 as int);
        lemma_placing_keeps_disjoint(
            scene.labels,
            c.text,
            (caption_start(px, c.text), double_of(py)),
            double_of(c.margin),
        );
        lemma_placing_keeps_disjoint(
            scene.labels,
            c.marker,
            (double_of(px), double_of(py)),
            double_of(3),
        );
    }
}

proof fn lemma_placing_keeps_disjoint(
    labels: Seq<LabelEntry>,
    text: Seq<char>,
    pixel: (Double, Double),
    margin: Double,
)
    requires
        crate::label_buffer::disjoint(labels),
    ensures
        try_place(labels, text, pixel, None, margin) matches Some(placed)
            ==> crate::label_buffer::disjoint(placed),
{
    if let Some(placed) = try_place(labels, text, pixel, None, margin) {
        crate::label_buffer::law_placed_labels_are_disjoint(labels, placed.last());
        assert(placed =~= labels.push(placed.last()));
    }
}

impl Renderer {
    /// The scene on the canvas, given the texts that were written.
    pub open spec fn scene(&self, seen: Set<Seq<char>>) -> Scene {
        Scene { grid: self.canvas@, labels: self.label_buffer@, seen }
    }

    /// Whether another renderer differs from this one in its canvas and labels
    /// alone.
    pub open spec fn same_setup(&self, other: &Renderer) -> bool {
        &&& self.width == other.width
        &&& self.height == other.height
        &&& self.canvas@.width == other.canvas@.width
        &&& self.canvas@.height == other.canvas@.height
        &&& self.label_buffer.margin == other.label_buffer.margin
        &&& self.styler == other.styler
        &&& self.config == other.config
    }

    /// Draw a single feature onto the canvas.
    ///
    /// Zoom-range filtering is already done in `get_tile_features()`.
    pub fn draw_feature(
        &mut self,
        feature: &TileFeature,
        drawing: &Drawing,
        seen: &mut StringHashSet,
    )
        requires
            old(self).wf(),
            drawing.is_complete(feature.line_width),
        ensures
            final(self).wf(),
            final(self).same_setup(old(self)),
            final(self).scene(final(seen)@) == old(self).scene(old(seen)@).draw(
                feature@,
                *drawing,
                old(self).config@,
            ),
    {
        match drawing {
            Drawing::Nothing => {},
            Drawing::Line { pixels, reaches } => {
                self.canvas.connect(pixels, feature.color, &feature.line_width, reaches, true);
            },
            Drawing::Dots { pixels } => {
                self.draw_dots(pixels, feature.color);
            },
            Drawing::Fill { rows, crossings } => {
                self.canvas.scanline_polygon_fill(rows, crossings, feature.color);
            },
            Drawing::Symbol { pixels } => {
                self.draw_symbol(feature, pixels, seen);
            },
        }
    }

    fn draw_dots(&mut self, pixels: &Vec<(i32, i32)>, color: ColorIdx)
        requires
            old(self).wf(),
        ensures
            final(self).wf(),
            final(self).same_setup(old(self)),
            final(self).canvas@ == old(self).canvas@.paint(pixel_ints(pixels@), color, false),
            final(self).label_buffer == old(self).label_buffer,
    {
        let ghost points = pixel_ints(pixels@);
        let mut i: usize = 0;
        assert(points.take(0) =~= Seq::empty());
        while i < pixels.len()
            invariant
                self.wf(),
                self.same_setup(old(self)),
                self.label_buffer == old(self).label_buffer,
                i <= pixels@.len(),
                points == pixel_ints(pixels@),
                self.canvas@ == old(self).canvas@.paint(points.take(i as int), color, false),
            decreases pixels@.len() - i,
        {
            let p: (i32, i32) = pixels[i];
            proof {
                assert(points.take(i + 1) =~= points.take(i as int).push(
                    (p.0 as int, p.1 as int),
                ));
                lemma_paint_push(
                    old(self).canvas@,
                    points.take(i as int),
                    (p.0 as int, p.1 as int),
                    color,
                    false,
                );
            }
            self.canvas.mark(p.0 as i128, p.1 as i128, color, false);
            i = i + 1;
        }
        assert(points.take(i as int) =~= points);
    }

    fn draw_symbol(
        &mut self,
        feature: &TileFeature,
        pixels: &Vec<(i32, i32)>,
        seen: &mut StringHashSet,
    )
        requires
            old(self).wf(),
        ensures
            final(self).wf(),
            final(self).same_setup(old(self)),
            ({
                let c = caption_of(feature@, old(self).config@);
                final(self).scene(final(seen)@) == if old(seen)@.contains(c.text) && c.text
                    != c.marker {
                    old(self).scene(old(seen)@)
                } else {
                    old(self).scene(old(seen)@).caption_from(c, pixels@, 0)
                }
            }),
    {
        let ghost c = caption_of(feature@, self.config@);
        let marker: String = char_text(self.config.poi_marker);
        let text: String = match &feature.label {
            Some(label) => label.clone(),
            None => marker.clone(),
        };
        assert(text@ == c.text);
        assert(marker@ == c.marker);
        let size: usize = byte_len(text.as_str());
        if seen.contains(text.as_str()) && !text_eq(text.as_str(), marker.as_str()) {
            return;
        }
        let layer: Option<LayerConfig> = self.config.layer(feature.layer.as_str());
        let margin: u32 = match &layer {
            Some(l) => match l.margin {
                Some(m) => m,
                None => self.config.label_margin,
            },
            None => self.config.label_margin,
        };
        let cluster: bool = match &layer {
            Some(l) => l.cluster,
            None => false,
        };
        assert(margin == c.margin);
        assert(cluster == c.cluster);
        let ghost start = self.scene(seen@);
        let mut i: usize = 0;
        while i < pixels.len()
            invariant
                self.wf(),
                self.same_setup(old(self)),
                i <= pixels@.len(),
                self.scene(seen@) == start,
                start == old(self).scene(old(seen)@),
                c == caption_of(feature@, old(self).config@),
                !old(seen)@.contains(c.text) || c.text == c.marker,
                text@ == c.text,
                marker@ == c.marker,
                margin == c.margin,
                cluster == c.cluster,
                feature.color == c.color,
                size == utf8_len(c.text),
                start.caption_from(c, pixels@, 0) == start.caption_from(c, pixels@, i as nat),
            decreases pixels@.len() - i,
        {
            let p: (i32, i32) = pixels[i];
            let px: Double = Double::from_i64(p.0 as i64);
            let py: Double = Double::from_i64(p.1 as i64);
            let bytes: Double = Double::from_u64(size as u64);
            let x: Double = px.minus(&bytes);
            proof {
                lemma_moderate_difference(px, bytes, p.0 as int, size as nat);
            }
            if self.label_buffer.write_if_possible(
                text.as_str(),
                x,
                py,
                None,
                Some(Double::from_u64(margin as u64)),
            ) {
                self.canvas.text(text.as_str(), x.to_i32(), p.1, feature.color, false);
                seen.insert(text.clone());
                return;
            }
            if cluster {
                if self.label_buffer.write_if_possible(
                    marker.as_str(),
                    px,
                    py,
                    None,
                    Some(Double::from_u64(3)),
                ) {
                    self.canvas.text(marker.as_str(), p.0, p.1, feature.color, false);
                    seen.insert(text.clone());
                    return;
                }
            }
            i = i + 1;
        }
    }
}

// -- What a drawing shows --------------------------------------------------

/// The viewport is padded by 64 pixels on every side, edges included.
pub proof fn law_viewports_are_padded_on_every_side(x: int, y: int, width: int, height: int)
    ensures
        is_outside((x, y), width, height) <==> !(-64 <= x <= width + 64 && -64 <= y <= height + 64),
{
}

/// A reduced path has only points of the path, in their order, and starts with
/// its first. `from` names where each comes from.
pub proof fn law_reduced_paths_go_the_same_way(
    path: Seq<(int, int)>,
    width: int,
    height: int,
) -> (from: Seq<int>)
    ensures
        from.len() == reduced(path, width, height).len(),
        forall|i: int|
            0 <= i < from.len() ==> 0 <= #[trigger] from[i] < path.len() && reduced(
                path,
                width,
                height,
            )[i] == path[from[i]],
        forall|i: int, j: int| 0 <= i < j < from.len() ==> #[trigger] from[i] < #[trigger] from[j],
        path.len() > 0 ==> from.len() > 0 && from[0] == 0,
{
    lemma_trail_origins(path, width, height, path.len())
}

proof fn lemma_trail_origins(
    path: Seq<(int, int)>,
    width: int,
    height: int,
    n: nat,
) -> (from: Seq<int>)
    requires
        n <= path.len(),
    ensures
        ({
            let t = trail(path, width, height, n);
            &&& from.len() == t.kept.len()
            &&& forall|i: int|
                0 <= i < from.len() ==> 0 <= #[trigger] from[i] < n && t.kept[i] == path[from[i]]
            &&& forall|i: int, j: int|
                0 <= i < j < from.len() ==> #[trigger] from[i] < #[trigger] from[j]
            &&& n > 0 ==> from.len() > 0 && from[0] == 0
            &&& n > 0 && t.outside && t.kept.last() != path[n - 1] ==> from.last() < n - 1
        }),
    decreases n,
{
    if n == 0 {
        Seq::empty()
    } else {
        let m = (n - 1) as nat;
        let before = lemma_trail_origins(path, width, height, m);
        let b = trail(path, width, height, m);
        let p = path[n - 1];
        lemma_trail_state(path, width, height, m);
        lemma_trail_state(path, width, height, n);
        if b.last == Some(p) {
            before
        } else if is_outside(p, width, height) {
            if b.outside {
                before
            } else {
                before.push(n - 1)
            }
        } else if b.rejoined() == b.kept {
            before.push(n - 1)
        } else {
            before.push(n - 2).push(n - 1)
        }
    }
}

/// Every point of a path within the padded viewport is kept.
pub proof fn law_points_within_the_viewport_are_kept(
    path: Seq<(int, int)>,
    width: int,
    height: int,
    i: int,
)
    requires
        0 <= i < path.len(),
        !is_outside(path[i], width, height),
    ensures
        reduced(path, width, height).contains(path[i]),
{
    lemma_inside_is_kept(path, width, height, path.len(), i);
}

proof fn lemma_inside_is_kept(path: Seq<(int, int)>, width: int, height: int, n: nat, i: int)
    requires
        0 <= i < n <= path.len(),
        !is_outside(path[i], width, height),
    ensures
        trail(path, width, height, n).kept.contains(path[i]),
    decreases n,
{
    let before = trail(path, width, height, (n - 1) as nat);
    let after = trail(path, width, height, n);
    lemma_trail_state(path, width, height, n);
    if i == n - 1 {
        assert(after.kept[after.kept.len() - 1] == path[i]);
    } else {
        lemma_inside_is_kept(path, width, height, (n - 1) as nat, i);
        let k = choose|k: int| 0 <= k < before.kept.len() && before.kept[k] == path[i];
        assert(after.kept[k] == path[i]);
    }
}

/// Of an excursion out of the padded viewport no more than two points are kept.
pub proof fn law_excursions_keep_two_points(
    path: Seq<(int, int)>,
    width: int,
    height: int,
    i: int,
)
    requires
        0 < i < reduced(path, width, height).len() - 1,
    ensures
        ({
            let kept = reduced(path, width, height);
            !is_outside(kept[i - 1], width, height) || !is_outside(kept[i], width, height)
                || !is_outside(kept[i + 1], width, height)
        }),
{
    lemma_excursions(path, width, height, path.len(), i);
}

proof fn lemma_excursions(path: Seq<(int, int)>, width: int, height: int, n: nat, i: int)
    requires
        n <= path.len(),
    ensures
        ({
            let t = trail(path, width, height, n);
            let kept = t.kept;
            &&& 0 < i < kept.len() - 1 ==> !is_outside(kept[i - 1], width, height) || !is_outside(
                kept[i],
                width,
                height,
            ) || !is_outside(kept[i + 1], width, height)
            &&& t.outside && kept.len() > 1 ==> !is_outside(kept[kept.len() - 2], width, height)
        }),
    decreases n,
{
    if n > 0 {
        let before = trail(path, width, height, (n - 1) as nat);
        lemma_excursions(path, width, height, (n - 1) as nat, i);
        lemma_trail_state(path, width, height, (n - 1) as nat);
        lemma_trail_state(path, width, height, n);
    }
}

/// A point that stands at a pixel lies in that pixel.
pub proof fn law_points_stand_at_their_pixels(pixels: Seq<(i32, i32)>, i: int)
    requires
        0 <= i < pixels.len(),
    ensures
        points_at(pixels).len() == pixels.len(),
        points_at(pixels)[i].pixel() == (pixels[i].0 as int, pixels[i].1 as int),
{
    lemma_whole_coordinate(pixels[i].0 as int);
    lemma_whole_coordinate(pixels[i].1 as int);
}

proof fn lemma_whole_coordinate(n: int)
    requires
        i32::MIN <= n <= i32::MAX,
    ensures
        double_of(n).finite(),
        double_of(n).value() == n * one(),
        double_of(n).as_i32() == n,
{
    if n >= 0 {
        lemma_whole_double(n as nat);
    } else {
        let m = -n;
        lemma_whole_double(m as nat);
        lemma_negated(double_of(m));
        assert(double_of(n) == double_of(m).negated());
        assert(-(m * one()) == n * one()) by (nonlinear_arith)
            requires
                n == -m,
        ;
    }
    law_integers_are_exact(double_of(n), n);
}

/// A feature that is a line is drawn along its first ring, as far as that is near
/// the viewport; a filled one row by row between the edges of all its rings, or
/// point by point where its first ring has fewer than three distinct points; a
/// symbol at the points of its first ring.
pub proof fn law_features_are_outlined_by_their_kind(
    renderer: Renderer,
    rings: Seq<Vec<(i32, i32)>>,
    line: Drawing,
    area: Drawing,
    symbol: Drawing,
)
    requires
        rings.len() > 0,
        renderer.outlines("line"@, rings, line),
        renderer.outlines("fill"@, rings, area),
        renderer.outlines("symbol"@, rings, symbol),
    ensures
        ({
            let path = reduced(
                pixel_ints(rings[0]@),
                renderer.width as int,
                renderer.height as int,
            );
            &&& path.len() < 2 ==> line is Nothing
            &&& path.len() >= 2 ==> (line matches Drawing::Line { pixels, .. } && pixel_ints(
                pixels@,
            ) == path)
            &&& symbol matches Drawing::Symbol { pixels } && pixel_ints(pixels@) == path
        }),
        rings[0]@.to_set().len() < 3 ==> (area matches Drawing::Dots { pixels } && pixels@
            == rings[0]@),
        rings[0]@.to_set().len() >= 3 ==> area is Fill,
{
    reveal_strlit("line");
    reveal_strlit("fill");
    reveal_strlit("symbol");
    assert("line"@.len() == 4 && "line"@[0] == 'l');
    assert("fill"@.len() == 4 && "fill"@[0] == 'f');
    assert("symbol"@.len() == 6);
}

/// Whatever is no label is painted in the color of its feature, and leaves the
/// labels alone: a line on its own in the cells that it runs through, dots and
/// fills beside what is there.
pub proof fn law_features_are_painted_in_their_color(
    scene: Scene,
    f: TileFeature,
    drawing: Drawing,
    config: ConfigModel,
    x: int,
    y: int,
)
    requires
        scene.grid.wf(),
        scene.grid.contains(x, y),
        !(drawing is Symbol),
    ensures
        scene.draw(f@, drawing, config).labels == scene.labels,
        scene.draw(f@, drawing, config).seen == scene.seen,
        drawing is Nothing ==> scene.draw(f@, drawing, config) == scene,
        drawing matches Drawing::Dots { pixels } ==> {
            let grid = scene.draw(f@, drawing, config).grid;
            &&& grid.lit(x, y) == (scene.grid.lit(x, y) || exists|i: int|
                0 <= i < pixels@.len() && (#[trigger] pixels@[i]).0 == x && pixels@[i].1 == y)
            &&& (exists|i: int|
                0 <= i < pixels@.len() && (#[trigger] pixels@[i]).0 == x && pixels@[i].1 == y)
                ==> grid.color_at(x, y) == f.color
        },
        drawing matches Drawing::Line { pixels, reaches } ==> {
            let grid = scene.draw(f@, drawing, config).grid;
            let points = path_points(
                pixel_ints(pixels@),
                f.line_width,
                reaches@,
                pixels@.len(),
            );
            &&& (exists|i: int|
                0 <= i < points.len() && #[trigger] is_in_cell_of(scene.grid, points[i], x, y))
                ==> grid.fg[scene.grid.cell(x, y)] == f.color && (grid.lit(x, y)
                ==> points.contains((x, y)))
            &&& (forall|i: int|
                0 <= i < points.len() ==> !#[trigger] is_in_cell_of(scene.grid, points[i], x, y))
                ==> grid.lit(x, y) == scene.grid.lit(x, y)
        },
        drawing matches Drawing::Fill { rows, crossings } ==> {
            let grid = scene.draw(f@, drawing, config).grid;
            let points = scan_points(
                rows@,
                crossings@,
                scene.grid.width as int,
                rows@.len(),
            );
            &&& grid.lit(x, y) == (scene.grid.lit(x, y) || points.contains((x, y)))
            &&& points.contains((x, y)) ==> grid.color_at(x, y) == f.color
        },
{
    let g = scene.grid;
    match drawing {
        Drawing::Nothing => {},
        Drawing::Symbol { pixels } => {},
        Drawing::Dots { pixels } => {
            let points = pixel_ints(pixels@);
            crate::fill::lemma_painted(g, points, f.color, x, y);
            if points.contains((x, y)) {
                let i = choose|i: int| 0 <= i < points.len() && points[i] == (x, y);
                assert(pixels@[i].0 == x && pixels@[i].1 == y);
            }
            if exists|i: int|
                0 <= i < pixels@.len() && (#[trigger] pixels@[i]).0 == x && pixels@[i].1 == y {
                let i = choose|i: int|
                    0 <= i < pixels@.len() && (#[trigger] pixels@[i]).0 == x && pixels@[i].1 == y;
                assert(points[i] == (x, y));
            }
        },
        Drawing::Line { pixels, reaches } => {
            let points = path_points(
                pixel_ints(pixels@),
                f.line_width,
                reaches@,
                pixels@.len(),
            );
            law_paint_colors_its_pixels(g, points, f.color, true, x, y);
            law_thin_lines_clear_their_cells(g, points, f.color, x, y);
        },
        Drawing::Fill { rows, crossings } => {
            let points = scan_points(rows@, crossings@, g.width as int, rows@.len());
            crate::fill::lemma_painted(g, points, f.color, x, y);
        },
    }
}

/// Whether a text has room at a pixel: it starts a pixel to the left of it for
/// each of its bytes.
pub open spec fn has_room(
    labels: Seq<LabelEntry>,
    text: Seq<char>,
    left: int,
    pixel: (i32, i32),
    margin: int,
) -> bool {
    let x = difference_of(double_of(pixel.0 as int), double_of(left));
    crate::label_buffer::is_free(
        labels,
        crate::label_buffer::label_box(
            crate::braille_buffer::display_width(text) as int,
            crate::label_buffer::cell_of(x, double_of(pixel.1 as int)),
            double_of(margin),
            None,
        ),
    )
}

/// A caption takes the first of its pixels where its text has room, or where its
/// marker has if it may stand in for the text. Where none has room, nothing
/// changes.
pub proof fn law_captions_take_the_first_place(
    scene: Scene,
    c: Caption,
    pixels: Seq<(i32, i32)>,
    i: nat,
    k: nat,
)
    requires
        i <= k <= pixels.len(),
        forall|j: int|
            i <= j < k ==> {
                &&& !has_room(
                    scene.labels,
                    c.text,
                    utf8_len(c.text) as int,
                    #[trigger] pixels[j],
                    c.margin,
                )
                &&& !c.cluster || try_place(
                    scene.labels,
                    c.marker,
                    (double_of(pixels[j].0 as int), double_of(pixels[j].1 as int)),
                    None,
                    double_of(3),
                ) is None
            },
    ensures
        scene.caption_from(c, pixels, i) == scene.caption_from(c, pixels, k),
        k == pixels.len() ==> scene.caption_from(c, pixels, i) == scene,
    decreases k - i,
{
    if i < k {
        let p = pixels[i as int];
        assert(!has_room(scene.labels, c.text, utf8_len(c.text) as int, p, c.margin));
        law_captions_take_the_first_place(scene, c, pixels, i + 1, k);
    }
}

/// Where a caption has room for its text it is written there in its color,
/// starting a pixel to the left for each byte, and is known from then on; its
/// marker is written on the pixel itself. Each is one label more.
pub proof fn law_captions_are_written_at_their_pixel(
    scene: Scene,
    c: Caption,
    pixels: Seq<(i32, i32)>,
    i: nat,
)
    requires
        i < pixels.len(),
        utf8_len(c.text) <= i32::MAX,
        i32::MIN <= pixels[i as int].0 - utf8_len(c.text),
    ensures
        ({
            let (px, py) = (pixels[i as int].0 as int, pixels[i as int].1 as int);
            let left = utf8_len(c.text) as int;
            let r = scene.caption_from(c, pixels, i);
            &&& has_room(scene.labels, c.text, left, pixels[i as int], c.margin) ==> {
                &&& r.grid == scene.grid.write_text(c.text, px - left, py, c.color, false)
                &&& r.seen == scene.seen.insert(c.text)
                &&& r.labels.len() == scene.labels.len() + 1
                &&& r.labels.drop_last() == scene.labels
            }
            &&& !has_room(scene.labels, c.text, left, pixels[i as int], c.margin) && c.cluster
                && try_place(
                scene.labels,
                c.marker,
                (double_of(px), double_of(py)),
                None,
                double_of(3),
            ) is Some ==> {
                &&& r.grid == scene.grid.write_text(c.marker, px, py, c.color, false)
                &&& r.seen == scene.seen.insert(c.text)
                &&& r.labels.len() == scene.labels.len() + 1
                &&& r.labels.drop_last() == scene.labels
            }
        }),
{
    let (px, py) = (pixels[i as int].0 as int, pixels[i as int].1 as int);
    let left = utf8_len(c.text) as int;
    assert(caption_start(px, c.text).as_i32() == px - left) by {
        lemma_whole_difference(px, left);
    }
    let at = (caption_start(px, c.text), double_of(py));
    lemma_room(scene.labels, c.text, at, double_of(c.margin));
    lemma_room(scene.labels, c.marker, (double_of(px), double_of(py)), double_of(3));
}

/// A label that has room is one more.
proof fn lemma_room(
    labels: Seq<LabelEntry>,
    text: Seq<char>,
    at: (Double, Double),
    margin: Double,
)
    ensures
        try_place(labels, text, at, None, margin) is Some <==> crate::label_buffer::is_free(
            labels,
            crate::label_buffer::label_box(
                crate::braille_buffer::display_width(text) as int,
                crate::label_buffer::cell_of(at.0, at.1),
                margin,
                None,
            ),
        ),
        try_place(labels, text, at, None, margin) matches Some(placed) ==> placed.len()
            == labels.len() + 1 && placed.drop_last() == labels,
{
    if let Some(placed) = try_place(labels, text, at, None, margin) {
        assert(placed.drop_last() =~= labels);
    }
}

proof fn lemma_whole_difference(a: int, b: int)
    requires
        i32::MIN <= a <= i32::MAX,
        0 <= b <= i32::MAX,
        i32::MIN <= a - b,
    ensures
        difference_of(double_of(a), double_of(b)).finite(),
        difference_of(double_of(a), double_of(b)).as_i32() == a - b,
{
    lemma_whole_coordinate(a);
    lemma_whole_coordinate(b);
    let (x, y) = (double_of(a), double_of(b));
    assert(2 * x.value() == (2 * a) * one() && 2 * y.value() == (2 * b) * one())
        by (nonlinear_arith)
        requires
            x.value() == a * one(),
            y.value() == b * one(),
    ;
    lemma_whole_sums(x, y, 2 * a, 2 * b);
    let d = difference_of(x, y);
    assert(d.value() == (a - b) * one()) by (nonlinear_arith)
        requires
            2 * d.value() == (2 * a - 2 * b) * one(),
    ;
    law_integers_are_exact(d, a - b);
}

/// A symbol is captioned with its label, or with the marker where it has none, in
/// the color of its feature. A layer with a margin of its own keeps that margin,
/// and only a layer that says so shows markers in place of texts.
pub proof fn law_symbols_are_captioned_by_their_layer(
    f: TileFeature,
    config: ConfigModel,
    i: int,
)
    ensures
        f.label matches Some(label) ==> caption_of(f@, config).text == label@,
        f.label is None ==> caption_of(f@, config).text == seq![config.poi_marker],
        caption_of(f@, config).marker == seq![config.poi_marker],
        caption_of(f@, config).color == f.color,
        0 <= i < config.layers.len() && config.layers[i].0 == f.layer@ && (forall|k: int|
            i < k < config.layers.len() ==> (#[trigger] config.layers[k]).0 != f.layer@) ==> {
            &&& caption_of(f@, config).cluster == config.layers[i].1.cluster
            &&& config.layers[i].1.margin matches Some(m) ==> caption_of(f@, config).margin == m
            &&& config.layers[i].1.margin is None ==> caption_of(f@, config).margin
                == config.label_margin
        },
        (forall|k: int|
            0 <= k < config.layers.len() ==> (#[trigger] config.layers[k]).0 != f.layer@) ==> {
            &&& !caption_of(f@, config).cluster
            &&& caption_of(f@, config).margin == config.label_margin
        },
{
    crate::config::law_last_override_counts(config.layers, i, f.layer@);
}

} // verus!
