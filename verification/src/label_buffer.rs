//! RTree-based label collision detection.
//!
//! Uses 2D spatial indexing (via `rstar`) to avoid overlapping labels
//! and to find labels underneath a cursor position.
//!
//! The index holds whole numbers: for each coordinate one that grows with it. It
//! may find more labels than there are; what it finds is then compared exactly.

use crate::arithmetic::{
    difference_of, halved, law_rounding_keeps_the_order, lemma_doubles_are_exact,
    lemma_half_bounds, lemma_half_of_whole, lemma_negated, lemma_sum_value, lemma_whole_double,
    lemma_whole_sums, quotient_floor, sum_of,
};
use crate::braille_buffer::{display_width, text_width};
use crate::double::{double_at, double_of, lemma_magnitude_order, one, Double, SIGN_BIT};
use crate::spatial::{ranges_meet, tree_boxes, BoxTree, Rect};
use vstd::prelude::*;

verus! {

/// A label entry stored in the spatial index.
#[derive(Debug, Clone, Copy)]
pub struct LabelEntry {
    /// Bounding box in terminal-cell coordinates.
    pub min_x: Double,
    pub min_y: Double,
    pub max_x: Double,
    pub max_y: Double,
    /// Optional reference to the feature that spawned this label.
    pub feature_id: Option<u64>,
}

impl LabelEntry {
    /// All coordinates are numbers.
    pub open spec fn ordered(self) -> bool {
        !self.min_x.nan() && !self.min_y.nan() && !self.max_x.nan() && !self.max_y.nan()
    }

    /// Whether two boxes have a common point.
    pub open spec fn meets(self, other: LabelEntry) -> bool {
        &&& ranges_meet(
            self.min_x.value(),
            self.max_x.value(),
            other.min_x.value(),
            other.max_x.value(),
        )
        &&& ranges_meet(
            self.min_y.value(),
            self.max_y.value(),
            other.min_y.value(),
            other.max_y.value(),
        )
    }
}

/// A box that is a single point.
pub open spec fn point_box(x: Double, y: Double) -> LabelEntry {
    LabelEntry { min_x: x, min_y: y, max_x: x, max_y: y, feature_id: None }
}

/// Spatial index for label placement / collision detection.
pub struct LabelBuffer {
    pub tree: BoxTree,
    pub entries: Vec<LabelEntry>,
    /// Default margin (in terminal cells) around labels.
    pub margin: Double,
}

/// The default of the default margin: 5.
pub const DEFAULT_MARGIN: u64 = 0x4014_0000_0000_0000;

/// The cell of a pixel on an axis, where cells are `d` pixels long. Infinity stays
/// infinity.
pub open spec fn cell_along(x: Double, d: int) -> Double {
    if !x.finite() {
        x
    } else {
        double_at(quotient_floor(x.value(), d) * one())
    }
}

/// The terminal cell of a pixel.
pub open spec fn cell_of(x: Double, y: Double) -> (Double, Double) {
    (cell_along(x, 2), cell_along(y, 4))
}

/// Whether the box of a label has an extent. An infinite margin around an infinite
/// position has none.
pub open spec fn placeable(x: Double, y: Double, margin: Double) -> bool {
    &&& !x.nan() && !y.nan() && !margin.nan()
    &&& margin.finite() || (x.finite() && y.finite())
}

/// The box around a text of this width at a terminal cell: the margin on its left
/// and right, half of the margin above and below.
pub open spec fn label_box(
    width: int,
    cell: (Double, Double),
    margin: Double,
    feature_id: Option<u64>,
) -> LabelEntry {
    LabelEntry {
        min_x: difference_of(cell.0, margin),
        min_y: difference_of(cell.1, halved(margin)),
        max_x: sum_of(sum_of(cell.0, margin), double_of(width)),
        max_y: sum_of(cell.1, halved(margin)),
        feature_id,
    }
}

/// The margin of a label: its own or the default.
pub open spec fn margin_of(margin: Option<Double>, default: Double) -> Double {
    match margin {
        Some(m) => m,
        None => default,
    }
}

/// Whether a box keeps clear of all labels.
pub open spec fn is_free(entries: Seq<LabelEntry>, area: LabelEntry) -> bool {
    forall|i: int| 0 <= i < entries.len() ==> !(#[trigger] entries[i]).meets(area)
}

/// The labels after one more was placed at a pixel; `None` where it would
/// collide with another.
pub open spec fn try_place(
    entries: Seq<LabelEntry>,
    text: Seq<char>,
    pixel: (Double, Double),
    feature_id: Option<u64>,
    margin: Double,
) -> Option<Seq<LabelEntry>> {
    let area = label_box(
        display_width(text) as int,
        cell_of(pixel.0, pixel.1),
        margin,
        feature_id,
    );
    if is_free(entries, area) {
        Some(entries.push(area))
    } else {
        None
    }
}

// -- Keys of the index -----------------------------------------------------

/// A whole number that grows with a number.
pub open spec fn order_key(d: Double) -> int {
    if d.negative() {
        -(d.mag() as int)
    } else {
        d.mag() as int
    }
}

proof fn lemma_order_key(a: Double, b: Double)
    ensures
        a.value() <= b.value() <==> order_key(a) <= order_key(b),
{
    lemma_magnitude_order(a.mag(), b.mag());
    lemma_magnitude_order(b.mag(), a.mag());
}

/// The coordinate of a number in the index.
pub open spec fn index_key(d: Double) -> int {
    order_key(d) / 0x1_0000
}

fn make_index_key(d: &Double) -> (r: i64)
    ensures
        r == index_key(*d),
        -0x8000_0000_0000 <= r <= 0x8000_0000_0000,
{
    let mag: i64 = (d.bits % SIGN_BIT) as i64;
    if d.bits >= SIGN_BIT {
        if mag == 0 {
            0
        } else {
            -((mag - 1) / 0x1_0000) - 1
        }
    } else {
        mag / 0x1_0000
    }
}

/// The box of a label in the index.
pub open spec fn index_box(e: LabelEntry) -> Rect {
    Rect {
        x0: index_key(e.min_x) as i64,
        y0: index_key(e.min_y) as i64,
        x1: index_key(e.max_x) as i64,
        y1: index_key(e.max_y) as i64,
    }
}

fn make_index_box(e: &LabelEntry) -> (r: Rect)
    ensures
        r == index_box(*e),
        r.in_limits(),
        r.x0 == index_key(e.min_x),
        r.y0 == index_key(e.min_y),
        r.x1 == index_key(e.max_x),
        r.y1 == index_key(e.max_y),
{
    Rect {
        x0: make_index_key(&e.min_x),
        y0: make_index_key(&e.min_y),
        x1: make_index_key(&e.max_x),
        y1: make_index_key(&e.max_y),
    }
}

proof fn lemma_index_key_grows(a: Double, b: Double)
    requires
        a.value() <= b.value(),
    ensures
        index_key(a) <= index_key(b),
        -0x8000_0000_0000 <= index_key(a) <= 0x8000_0000_0000,
        -0x8000_0000_0000 <= index_key(b) <= 0x8000_0000_0000,
{
    lemma_order_key(a, b);
    assert(a.mag() < SIGN_BIT && b.mag() < SIGN_BIT);
}

proof fn lemma_key_ranges_meet(a0: Double, a1: Double, b0: Double, b1: Double)
    requires
        ranges_meet(a0.value(), a1.value(), b0.value(), b1.value()),
    ensures
        ranges_meet(index_key(a0), index_key(a1), index_key(b0), index_key(b1)),
{
    let (a_low, a_high) = if a0.value() < a1.value() {
        (a0, a1)
    } else {
        (a1, a0)
    };
    let (b_low, b_high) = if b0.value() < b1.value() {
        (b0, b1)
    } else {
        (b1, b0)
    };
    lemma_index_key_grows(a_low, a_high);
    lemma_index_key_grows(b_low, b_high);
    lemma_index_key_grows(a_low, b_high);
    lemma_index_key_grows(b_low, a_high);
}

/// Boxes that meet do so in the index too.
proof fn lemma_index_finds(a: LabelEntry, b: LabelEntry)
    requires
        a.meets(b),
    ensures
        index_box(a).meets(index_box(b)),
{
    lemma_key_ranges_meet(a.min_x, a.max_x, b.min_x, b.max_x);
    lemma_key_ranges_meet(a.min_y, a.max_y, b.min_y, b.max_y);
    lemma_index_key_grows(a.min_x, a.min_x);
    lemma_index_key_grows(a.max_x, a.max_x);
    lemma_index_key_grows(a.min_y, a.min_y);
    lemma_index_key_grows(a.max_y, a.max_y);
    lemma_index_key_grows(b.min_x, b.min_x);
    lemma_index_key_grows(b.max_x, b.max_x);
    lemma_index_key_grows(b.min_y, b.min_y);
    lemma_index_key_grows(b.max_y, b.max_y);
}

fn ranges_overlap(a0: &Double, a1: &Double, b0: &Double, b1: &Double) -> (r: bool)
    requires
        !a0.nan(),
        !a1.nan(),
        !b0.nan(),
        !b1.nan(),
    ensures
        r == ranges_meet(a0.value(), a1.value(), b0.value(), b1.value()),
{
    let (a_low, a_high): (&Double, &Double) = if a0.is_below(a1) {
        (a0, a1)
    } else {
        (a1, a0)
    };
    let (b_low, b_high): (&Double, &Double) = if b0.is_below(b1) {
        (b0, b1)
    } else {
        (b1, b0)
    };
    a_low.is_at_most(b_high) && b_low.is_at_most(a_high)
}

impl LabelEntry {
    fn overlaps(&self, other: &LabelEntry) -> (r: bool)
        requires
            self.ordered(),
            other.ordered(),
        ensures
            r == self.meets(*other),
    {
        ranges_overlap(&self.min_x, &self.max_x, &other.min_x, &other.max_x) && ranges_overlap(
            &self.min_y,
            &self.max_y,
            &other.min_y,
            &other.max_y,
        )
    }
}

// -- The buffer ------------------------------------------------------------

impl View for LabelBuffer {
    type V = Seq<LabelEntry>;

    open spec fn view(&self) -> Seq<LabelEntry> {
        self.entries@
    }
}

impl LabelBuffer {
    /// The index holds the boxes of the entries.
    pub open spec fn wf(&self) -> bool {
        &&& tree_boxes(self.tree).len() == self.entries@.len()
        &&& forall|i: int|
            0 <= i < self.entries@.len() ==> #[trigger] tree_boxes(self.tree)[i] == index_box(
                self.entries@[i],
            )
        &&& forall|i: int| 0 <= i < self.entries@.len() ==> (#[trigger] self.entries@[i]).ordered()
    }

    /// Create a new empty label buffer.
    pub fn new() -> (r: Self)
        ensures
            r.wf(),
            r@ == Seq::<LabelEntry>::empty(),
            r.margin == (Double { bits: DEFAULT_MARGIN }),
    {
        LabelBuffer {
            tree: BoxTree::new(),
            entries: Vec::new(),
            margin: Double::from_bits(DEFAULT_MARGIN),
        }
    }

    /// Remove all labels.
    pub fn clear(&mut self)
        ensures
            final(self).wf(),
            final(self)@ == Seq::<LabelEntry>::empty(),
            final(self).margin == old(self).margin,
    {
        self.tree = BoxTree::new();
        self.entries = Vec::new();
    }

    /// Convert pixel coordinates to terminal-cell coordinates.
    pub fn project(x: Double, y: Double) -> (r: (Double, Double))
        ensures
            r == cell_of(x, y),
            r.0.finite() == x.finite(),
            r.1.finite() == y.finite(),
            x.finite() ==> r.0.value() == quotient_floor(x.value(), 2) * one(),
            y.finite() ==> r.1.value() == quotient_floor(y.value(), 4) * one(),
    {
        proof {
            vstd::arithmetic::power2::lemma2_to64();
        }
        let cx: Double = if x.is_finite() {
            x.floor_of_part(1)
        } else {
            x
        };
        let cy: Double = if y.is_finite() {
            y.floor_of_part(2)
        } else {
            y
        };
        (cx, cy)
    }

    /// Try to place a label at pixel position `(x, y)`.
    ///
    /// Returns `true` if the label was placed (no collision), `false` otherwise.
    pub fn write_if_possible(
        &mut self,
        text: &str,
        x: Double,
        y: Double,
        feature_id: Option<u64>,
        margin: Option<Double>,
    ) -> (r: bool)
        requires
            old(self).wf(),
            placeable(x, y, margin_of(margin, old(self).margin)),
        ensures
            final(self).wf(),
            final(self).margin == old(self).margin,
            match try_place(
                old(self)@,
                text@,
                (x, y),
                feature_id,
                margin_of(margin, old(self).margin),
            ) {
                Some(placed) => r && final(self)@ == placed,
                None => !r && final(self)@ == old(self)@,
            },
    {
        let m: Double = match margin {
            Some(m) => m,
            None => self.margin,
        };
        let width: usize = text_width(text);
        let (cx, cy): (Double, Double) = Self::project(x, y);
        let entry: LabelEntry = Self::calculate_area(width, cx, cy, m, feature_id);
        if self.has_space(&entry) {
            self.tree.insert(make_index_box(&entry));
            self.entries.push(entry);
            true
        } else {
            false
        }
    }

    /// Find all labels that contain the terminal-cell position `(x, y)`, by
    /// their numbers.
    pub fn features_at(&self, x: Double, y: Double) -> (r: Vec<usize>)
        requires
            self.wf(),
            !x.nan(),
            !y.nan(),
        ensures
            r@.no_duplicates(),
            forall|i: int| 0 <= i < r@.len() ==> #[trigger] r@[i] < self@.len(),
            forall|k: usize|
                k < self@.len() ==> (#[trigger] r@.contains(k) <==> self@[k as int].meets(
                    point_box(x, y),
                )),
    {
        self.labels_at(&LabelEntry { min_x: x, min_y: y, max_x: x, max_y: y, feature_id: None })
    }

    /// The labels that a box meets.
    fn labels_at(&self, area: &LabelEntry) -> (r: Vec<usize>)
        requires
            self.wf(),
            area.ordered(),
        ensures
            r@.no_duplicates(),
            forall|i: int| 0 <= i < r@.len() ==> #[trigger] r@[i] < self@.len(),
            forall|k: usize|
                k < self@.len() ==> (#[trigger] r@.contains(k) <==> self@[k as int].meets(*area)),
    {
        let found: Vec<usize> = self.tree.locate(make_index_box(area));
        let mut out: Vec<usize> = Vec::new();
        let mut i: usize = 0;
        while i < found.len()
            invariant
                self.wf(),
                area.ordered(),
                i <= found@.len(),
                found@.no_duplicates(),
                forall|j: int| 0 <= j < found@.len() ==> #[trigger] found@[j] < self@.len(),
                out@.no_duplicates(),
                forall|j: int|
                    0 <= j < out@.len() ==> (#[trigger] out@[j]) < self@.len()
                        && found@.take(i as int).contains(out@[j]) && self@[out@[j] as int].meets(
                        *area,
                    ),
                forall|j: int|
                    0 <= j < i && self@[#[trigger] found@[j] as int].meets(*area)
                        ==> out@.contains(found@[j]),
            decreases found@.len() - i,
        {
            let k: usize = found[i];
            let ghost before = out@;
            proof {
                assert(found@.take(i + 1) =~= found@.take(i as int).push(k));
                assert(!found@.take(i as int).contains(k));
                assert forall|j: int| 0 <= j < before.len() implies found@.take(i + 1).contains(
                    #[trigger] before[j],
                ) by {
                    let q = choose|q: int|
                        0 <= q < i && found@.take(i as int)[q] == before[j];
                    assert(found@.take(i + 1)[q] == before[j]);
                }
                assert(found@.take(i + 1)[i as int] == k);
            }
            if self.entries[k].overlaps(area) {
                out.push(k);
                proof {
                    assert(out@[before.len() as int] == k);
                    assert forall|j: int|
                        0 <= j < i + 1 && self@[#[trigger] found@[j] as int].meets(
                            *area,
                        ) implies out@.contains(found@[j]) by {
                        if j < i {
                            let q = choose|q: int| 0 <= q < before.len() && before[q] == found@[j];
                            assert(out@[q] == found@[j]);
                        }
                    }
                }
            }
            i = i + 1;
        }
        proof {
            assert forall|k: usize| k < self@.len() implies (#[trigger] out@.contains(k)
                <==> self@[k as int].meets(*area)) by {
                if self@[k as int].meets(*area) {
                    lemma_index_finds(self@[k as int], *area);
                    assert(tree_boxes(self.tree)[k as int] == index_box(self.entries@[k as int]));
                    assert(found@.contains(k));
                    let j = choose|j: int| 0 <= j < found@.len() && found@[j] == k;
                    assert(self@[found@[j] as int].meets(*area));
                }
            }
        }
        out
    }

    /// Check if there is space for a label.
    fn has_space(&self, area: &LabelEntry) -> (r: bool)
        requires
            self.wf(),
            area.ordered(),
        ensures
            r == is_free(self@, *area),
    {
        let found: Vec<usize> = self.labels_at(area);
        let n: usize = self.entries.len();
        proof {
            if found@.len() > 0 {
                let k = found@[0];
                assert(found@.contains(k));
                assert(self@[k as int].meets(*area));
            } else {
                assert forall|i: int| 0 <= i < self@.len() implies !(
                #[trigger] self@[i]).meets(*area) by {
                    assert(i < n);
                    assert(!found@.contains(i as usize));
                }
            }
        }
        found.len() == 0
    }

    /// Calculate the bounding box for a label.
    fn calculate_area(
        width: usize,
        x: Double,
        y: Double,
        margin: Double,
        feature_id: Option<u64>,
    ) -> (r: LabelEntry)
        requires
            placeable(x, y, margin),
        ensures
            r == label_box(width as int, (x, y), margin, feature_id),
            r.ordered(),
    {
        let half: Double = margin.half();
        LabelEntry {
            min_x: x.minus(&margin),
            min_y: y.minus(&half),
            max_x: x.plus(&margin).plus(&Double::from_u64(width as u64)),
            max_y: y.plus(&half),
            feature_id,
        }
    }
}

impl Default for LabelBuffer {
    fn default() -> (r: Self)
        ensures
            r.wf(),
            r@ == Seq::<LabelEntry>::empty(),
            r.margin == (Double { bits: DEFAULT_MARGIN }),
    {
        Self::new()
    }
}

// -- Laws ------------------------------------------------------------------

/// Labels that were placed keep clear of each other.
pub open spec fn disjoint(entries: Seq<LabelEntry>) -> bool {
    forall|i: int, j: int|
        0 <= i < j < entries.len() ==> !(#[trigger] entries[i]).meets(#[trigger] entries[j])
}

/// Placing a label where there is space keeps all labels clear of each other.
pub proof fn law_placed_labels_are_disjoint(entries: Seq<LabelEntry>, entry: LabelEntry)
    requires
        disjoint(entries),
        is_free(entries, entry),
    ensures
        disjoint(entries.push(entry)),
{
}

/// A label is placed if and only if it keeps clear of all labels. It is added
/// with its box then, and all labels keep clear of each other; else nothing
/// changes.
pub proof fn law_labels_are_placed_where_there_is_space(
    entries: Seq<LabelEntry>,
    text: Seq<char>,
    pixel: (Double, Double),
    feature_id: Option<u64>,
    margin: Double,
)
    requires
        disjoint(entries),
    ensures
        ({
            let area = label_box(
                display_width(text) as int,
                cell_of(pixel.0, pixel.1),
                margin,
                feature_id,
            );
            match try_place(entries, text, pixel, feature_id, margin) {
                Some(placed) => is_free(entries, area) && placed == entries.push(area) && disjoint(
                    placed,
                ),
                None => !is_free(entries, area),
            }
        }),
{
    let area = label_box(
        display_width(text) as int,
        cell_of(pixel.0, pixel.1),
        margin,
        feature_id,
    );
    if is_free(entries, area) {
        law_placed_labels_are_disjoint(entries, area);
    }
}

/// A box holds the cell of its label.
proof fn lemma_box_holds_its_cell(width: nat, cell: (Double, Double), margin: Double)
    requires
        placeable(cell.0, cell.1, margin),
        margin.value() >= 0,
        width <= u64::MAX,
    ensures
        ({
            let b = label_box(width as int, cell, margin, None);
            &&& b.min_x.value() <= cell.0.value() <= b.max_x.value()
            &&& b.min_y.value() <= cell.1.value() <= b.max_y.value()
        }),
{
    let half = halved(margin);
    if margin.finite() {
        lemma_half_bounds(margin);
    }
    lemma_sums_enclose(cell.0, margin);
    lemma_sums_enclose(cell.1, half);
    let right = sum_of(cell.0, margin);
    lemma_whole_double(width);
    lemma_sums_enclose(right, double_of(width as int));
}

/// A number lies between its difference and its sum with one that is not
/// negative.
proof fn lemma_sums_enclose(a: Double, b: Double)
    requires
        !a.nan(),
        !b.nan(),
        b.value() >= 0,
        a.finite() || b.finite(),
    ensures
        !sum_of(a, b).nan(),
        difference_of(a, b).value() <= a.value() <= sum_of(a, b).value(),
{
    lemma_negated(b);
    lemma_doubles_are_exact(a);
    lemma_doubles_are_exact(b);
    if a.finite() && b.finite() {
        lemma_sum_value(a, b);
        lemma_sum_value(a, b.negated());
        law_rounding_keeps_the_order(a.value() - b.value(), a.value());
        law_rounding_keeps_the_order(a.value(), a.value() + b.value());
    }
}

/// A label collides with every label at its own cell, whatever the margins.
pub proof fn law_same_cell_collides(
    w1: nat,
    w2: nat,
    m1: Double,
    m2: Double,
    cell: (Double, Double),
)
    requires
        placeable(cell.0, cell.1, m1),
        placeable(cell.0, cell.1, m2),
        m1.value() >= 0,
        m2.value() >= 0,
        w1 <= u64::MAX,
        w2 <= u64::MAX,
    ensures
        label_box(w1 as int, cell, m1, None).meets(label_box(w2 as int, cell, m2, None)),
{
    lemma_box_holds_its_cell(w1, cell, m1);
    lemma_box_holds_its_cell(w2, cell, m2);
}

/// A label is found at the cell it was placed at.
pub proof fn law_placed_label_is_found(width: nat, cell: (Double, Double), margin: Double)
    requires
        placeable(cell.0, cell.1, margin),
        margin.value() >= 0,
        width <= u64::MAX,
    ensures
        label_box(width as int, cell, margin, None).meets(point_box(cell.0, cell.1)),
{
    lemma_box_holds_its_cell(width, cell, margin);
}

/// How large whole coordinates, margins and widths may be for no sum to be
/// rounded: 2^49.
pub const EXACT_LIMIT: i64 = 0x2_0000_0000_0000;

/// The box of a label at whole coordinates with a whole margin is not rounded.
pub proof fn law_whole_boxes_are_exact(
    width: nat,
    cell: (Double, Double),
    margin: Double,
    x: int,
    y: int,
    m: int,
)
    requires
        cell.0.finite(),
        cell.1.finite(),
        margin.finite(),
        cell.0.value() == x * one(),
        cell.1.value() == y * one(),
        margin.value() == m * one(),
        -EXACT_LIMIT <= x <= EXACT_LIMIT,
        -EXACT_LIMIT <= y <= EXACT_LIMIT,
        0 <= m <= EXACT_LIMIT,
        width <= EXACT_LIMIT,
    ensures
        ({
            let b = label_box(width as int, cell, margin, None);
            &&& b.min_x.value() == (x - m) * one()
            &&& b.max_x.value() == (x + m + width) * one()
            &&& 2 * b.min_y.value() == (2 * y - m) * one()
            &&& 2 * b.max_y.value() == (2 * y + m) * one()
        }),
{
    assert((2 * x) * one() == 2 * (x * one()) && (2 * y) * one() == 2 * (y * one()) && (2 * m)
        * one() == 2 * (m * one()) && (2 * width) * one() == 2 * (width * one()))
        by (nonlinear_arith);
    lemma_whole_sums(cell.0, margin, 2 * x, 2 * m);
    lemma_half_of_whole(margin, m);
    lemma_whole_sums(cell.1, halved(margin), 2 * y, m);
    let right = sum_of(cell.0, margin);
    lemma_whole_double(width);
    assert(2 * right.value() == (2 * (x + m)) * one()) by (nonlinear_arith)
        requires
            2 * right.value() == (2 * x + 2 * m) * one(),
    ;
    lemma_whole_sums(right, double_of(width as int), 2 * (x + m), 2 * width as int);
    let b = label_box(width as int, cell, margin, None);
    assert(b.min_x.value() == (x - m) * one() && b.max_x.value() == (x + m + width) * one())
        by (nonlinear_arith)
        requires
            2 * b.min_x.value() == (2 * x - 2 * m) * one(),
            2 * b.max_x.value() == (2 * (x + m) + 2 * width) * one(),
    ;
}

/// A whole number is held by a double.
proof fn lemma_whole_double_at(n: int)
    requires
        -EXACT_LIMIT <= n <= EXACT_LIMIT,
    ensures
        double_at(n * one()).finite(),
        double_at(n * one()).value() == n * one(),
        double_of(n).finite(),
        double_of(n).value() == n * one(),
{
    crate::double::lemma_one();
    if n >= 0 {
        lemma_whole_double(n as nat);
        assert(n * one() >= 0) by (nonlinear_arith)
            requires
                n >= 0,
                one() > 0,
        ;
        crate::double::lemma_double_at(double_of(n));
    } else {
        let m = -n;
        lemma_whole_double(m as nat);
        let d = double_of(m);
        lemma_negated(d);
        assert(m * one() > 0 && -(m * one()) == n * one()) by (nonlinear_arith)
            requires
                m > 0,
                n == -m,
                one() > 0,
        ;
        assert(d.value() > 0);
        assert(double_of(n) == d.negated());
        assert(d.negated().negative());
        crate::double::lemma_double_at(d.negated());
    }
}

/// The cell of a whole pixel: half as many columns and a quarter as many rows,
/// rounded down.
pub proof fn law_whole_pixels_have_whole_cells(px: int, py: int)
    requires
        -EXACT_LIMIT <= px <= EXACT_LIMIT,
        -EXACT_LIMIT <= py <= EXACT_LIMIT,
    ensures
        ({
            let cell = cell_of(double_of(px), double_of(py));
            &&& cell.0.finite() && cell.0.value() == (px / 2) * one()
            &&& cell.1.finite() && cell.1.value() == (py / 4) * one()
        }),
{
    lemma_whole_double_at(px);
    lemma_whole_double_at(py);
    lemma_whole_double_at(px / 2);
    lemma_whole_double_at(py / 4);
    lemma_whole_quotient(px, 2);
    lemma_whole_quotient(py, 4);
}

proof fn lemma_whole_quotient(n: int, d: int)
    requires
        d == 2 || d == 4,
    ensures
        quotient_floor(n * one(), d) == n / d,
{
    crate::double::lemma_one();
    vstd::arithmetic::power2::lemma2_to64();
    vstd::arithmetic::power2::lemma_pow2_strictly_increases(4, 1074);
    let (u, q, r) = (one(), n / d, n % d);
    assert(n * u == (d * u) * q + r * u && 0 <= r * u < d * u) by (nonlinear_arith)
        requires
            n == d * q + r,
            0 <= r < d,
            u > 0,
    ;
    vstd::arithmetic::div_mod::lemma_fundamental_div_mod_converse(n * u, d * u, q, r * u);
    if n < 0 {
        assert(n * u <= -u) by (nonlinear_arith)
            requires
                n <= -1,
                u > 0,
        ;
        assert(u > 16);
    }
}

/// A label at whole pixels with a whole margin.
pub struct WholeLabel {
    pub text: Seq<char>,
    pub px: int,
    pub py: int,
    pub margin: int,
    pub feature_id: Option<u64>,
}

impl WholeLabel {
    pub open spec fn in_limits(self) -> bool {
        &&& -EXACT_LIMIT <= self.px <= EXACT_LIMIT
        &&& -EXACT_LIMIT <= self.py <= EXACT_LIMIT
        &&& 0 <= self.margin <= EXACT_LIMIT
        &&& display_width(self.text) <= EXACT_LIMIT
    }

    /// The labels with this one placed.
    pub open spec fn placed(self, entries: Seq<LabelEntry>) -> Option<Seq<LabelEntry>> {
        try_place(
            entries,
            self.text,
            (double_of(self.px), double_of(self.py)),
            self.feature_id,
            double_of(self.margin),
        )
    }

    /// Whether the label comes too near to another: the columns of the one with
    /// its margin reach those of the other with its margin, and so do the rows
    /// with half of the margins.
    pub open spec fn is_too_near(self, other: WholeLabel) -> bool {
        let (a, b) = (self, other);
        &&& a.px / 2 - a.margin <= b.px / 2 + b.margin + display_width(b.text)
        &&& b.px / 2 - b.margin <= a.px / 2 + a.margin + display_width(a.text)
        &&& 2 * (a.py / 4) - a.margin <= 2 * (b.py / 4) + b.margin
        &&& 2 * (b.py / 4) - b.margin <= 2 * (a.py / 4) + a.margin
    }
}

proof fn lemma_whole_label(a: WholeLabel) -> (area: LabelEntry)
    requires
        a.in_limits(),
    ensures
        area == label_box(
            display_width(a.text) as int,
            cell_of(double_of(a.px), double_of(a.py)),
            double_of(a.margin),
            a.feature_id,
        ),
        area.min_x.value() == (a.px / 2 - a.margin) * one(),
        area.max_x.value() == (a.px / 2 + a.margin + display_width(a.text)) * one(),
        2 * area.min_y.value() == (2 * (a.py / 4) - a.margin) * one(),
        2 * area.max_y.value() == (2 * (a.py / 4) + a.margin) * one(),
{
    let cell = cell_of(double_of(a.px), double_of(a.py));
    law_whole_pixels_have_whole_cells(a.px, a.py);
    lemma_whole_double_at(a.margin);
    law_whole_boxes_are_exact(
        display_width(a.text),
        cell,
        double_of(a.margin),
        a.px / 2,
        a.py / 4,
        a.margin,
    );
    label_box(display_width(a.text) as int, cell, double_of(a.margin), a.feature_id)
}

proof fn lemma_scaled_order(a: int, b: int, u: int)
    requires
        u > 0,
    ensures
        a * u <= b * u <==> a <= b,
        a * u < b * u <==> a < b,
{
    assert((a * u <= b * u <==> a <= b) && (a * u < b * u <==> a < b)) by (nonlinear_arith)
        requires
            u > 0,
    ;
}

/// The first label always finds its place, and keeps its feature. A second one at
/// whole pixels finds its place exactly if it does not come too near to the
/// first; it is then the last of the labels, and the first stays.
pub proof fn law_labels_need_space_on_both_axes(a: WholeLabel, b: WholeLabel)
    requires
        a.in_limits(),
        b.in_limits(),
    ensures
        a.placed(Seq::empty()) matches Some(first) && first.len() == 1 && first[0].feature_id
            == a.feature_id && {
            &&& b.placed(first) is None <==> b.is_too_near(a)
            &&& b.placed(first) matches Some(both) ==> both.len() == 2 && both[0] == first[0]
                && both[1].feature_id == b.feature_id
        },
{
    let x = lemma_whole_label(a);
    let y = lemma_whole_label(b);
    let first = seq![x];
    assert(Seq::<LabelEntry>::empty().push(x) =~= first);
    let u = one();
    crate::double::lemma_one();
    let (wa, wb) = (display_width(a.text) as int, display_width(b.text) as int);
    let (ca, cb) = (a.px / 2, b.px / 2);
    let (ra, rb) = (a.py / 4, b.py / 4);
    lemma_scaled_order(ca - a.margin, ca + a.margin + wa, u);
    lemma_scaled_order(cb - b.margin, cb + b.margin + wb, u);
    lemma_scaled_order(ca + a.margin + wa, ca - a.margin, u);
    lemma_scaled_order(cb + b.margin + wb, cb - b.margin, u);
    lemma_scaled_order(ca - a.margin, cb + b.margin + wb, u);
    lemma_scaled_order(cb - b.margin, ca + a.margin + wa, u);
    lemma_scaled_order(2 * ra - a.margin, 2 * ra + a.margin, u);
    lemma_scaled_order(2 * rb - b.margin, 2 * rb + b.margin, u);
    lemma_scaled_order(2 * ra - a.margin, 2 * rb + b.margin, u);
    lemma_scaled_order(2 * rb - b.margin, 2 * ra + a.margin, u);
    assert(x.meets(y) == b.is_too_near(a));
    assert(first[0] == x);
    assert(is_free(first, y) == !x.meets(y));
}

/// A label is where the cursor is exactly if the cursor is within its box, edges
/// included.
pub proof fn law_labels_are_found_within_their_box(e: LabelEntry, x: Double, y: Double)
    requires
        e.min_x.value() <= e.max_x.value(),
        e.min_y.value() <= e.max_y.value(),
    ensures
        e.meets(point_box(x, y)) <==> e.min_x.value() <= x.value() <= e.max_x.value()
            && e.min_y.value() <= y.value() <= e.max_y.value(),
{
}

/// A label keeps its own margin, and one without a margin the default.
pub proof fn law_labels_keep_their_own_margin(own: Double, default: Double)
    ensures
        margin_of(Some(own), default) == own,
        margin_of(None, default) == default,
{
}

} // verus!
