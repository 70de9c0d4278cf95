//! Spatial index of boxes.

use rstar::primitives::{GeomWithData, Rectangle};
use rstar::{RTree, AABB};
use vstd::prelude::*;

verus! {

/// A box between two corners, which may be given in any order. Both corners
/// belong to it.
#[derive(Clone, Copy, Debug)]
pub struct Rect {
    pub x0: i64,
    pub y0: i64,
    pub x1: i64,
    pub y1: i64,
}

/// How large a coordinate of the index may be: 2^48. The index squares
/// distances and multiplies sides.
pub const COORDINATE_LIMIT: i64 = 0x1_0000_0000_0000;

/// Whether two ranges, each between two ends in any order, have a common point.
pub open spec fn ranges_meet(a0: int, a1: int, b0: int, b1: int) -> bool {
    let (a_low, a_high) = if a0 < a1 {
        (a0, a1)
    } else {
        (a1, a0)
    };
    let (b_low, b_high) = if b0 < b1 {
        (b0, b1)
    } else {
        (b1, b0)
    };
    a_low <= b_high && b_low <= a_high
}

impl Rect {
    pub open spec fn in_limits(self) -> bool {
        &&& -COORDINATE_LIMIT <= self.x0 <= COORDINATE_LIMIT
        &&& -COORDINATE_LIMIT <= self.y0 <= COORDINATE_LIMIT
        &&& -COORDINATE_LIMIT <= self.x1 <= COORDINATE_LIMIT
        &&& -COORDINATE_LIMIT <= self.y1 <= COORDINATE_LIMIT
    }

    /// Whether two boxes have a common point.
    pub open spec fn meets(self, other: Rect) -> bool {
        &&& ranges_meet(self.x0 as int, self.x1 as int, other.x0 as int, other.x1 as int)
        &&& ranges_meet(self.y0 as int, self.y1 as int, other.y0 as int, other.y1 as int)
    }
}

/// An R-tree of the `rstar` crate over boxes, each with its number.
#[verifier::external_body]
pub struct BoxTree {
    tree: RTree<GeomWithData<Rectangle<[i128; 2]>, usize>>,
}

/// The boxes that an index holds, by their numbers.
pub uninterp spec fn tree_boxes(tree: BoxTree) -> Seq<Rect>;

impl BoxTree {
    /// `RTree::new`: an index without boxes.
    #[verifier::external_body]
    pub(crate) fn new() -> (r: BoxTree)
        ensures
            tree_boxes(r) == Seq::<Rect>::empty(),
    {
        BoxTree { tree: RTree::new() }
    }

    /// `RTree::bulk_load` on `Rectangle::from_corners`: an index of these boxes,
    /// numbered from 0 in the order of the list.
    #[verifier::external_body]
    pub(crate) fn bulk_load(boxes: &Vec<Rect>) -> (r: BoxTree)
        requires
            forall|i: int| 0 <= i < boxes@.len() ==> (#[trigger] boxes@[i]).in_limits(),
        ensures
            tree_boxes(r) == boxes@,
    {
        let numbered = boxes.iter().enumerate().map(
            |(i, b)| GeomWithData::new(
                Rectangle::from_corners([b.x0.into(), b.y0.into()], [b.x1.into(), b.y1.into()]),
                i,
            ),
        );
        BoxTree { tree: RTree::bulk_load(numbered.collect()) }
    }

    /// `RTree::insert` on `Rectangle::from_corners`: one more box, with the next
    /// number, which is `RTree::size`.
    #[verifier::external_body]
    pub(crate) fn insert(&mut self, b: Rect)
        requires
            b.in_limits(),
        ensures
            tree_boxes(*final(self)) == tree_boxes(*old(self)).push(b),
    {
        let corners = ([b.x0.into(), b.y0.into()], [b.x1.into(), b.y1.into()]);
        let number = self.tree.size();
        let shape = Rectangle::from_corners(corners.0, corners.1);
        self.tree.insert(GeomWithData::new(shape, number));
    }

    /// `RTree::locate_in_envelope_intersecting` on `AABB::from_corners`: the
    /// numbers of the boxes that have a point in common with `window`, each
    /// once. The crate leaves their order open, and so does this.
    #[verifier::external_body]
    pub(crate) fn locate(&self, window: Rect) -> (r: Vec<usize>)
        ensures
            r@.no_duplicates(),
            forall|i: int| 0 <= i < r@.len() ==> #[trigger] r@[i] < tree_boxes(*self).len(),
            forall|k: usize|
                k < tree_boxes(*self).len() ==> (#[trigger] r@.contains(k) <==> tree_boxes(
                    *self,
                )[k as int].meets(window)),
    {
        let (a, b) = ([window.x0.into(), window.y0.into()], [window.x1.into(), window.y1.into()]);
        let envelope = AABB::from_corners(a, b);
        self.tree.locate_in_envelope_intersecting(&envelope).map(|g| g.data).collect()
    }
}

/// Whether a point is in a box, its edges included.
pub open spec fn is_in(x: int, y: int, b: Rect) -> bool {
    &&& b.x0 <= x <= b.x1 || b.x1 <= x <= b.x0
    &&& b.y0 <= y <= b.y1 || b.y1 <= y <= b.y0
}

/// Two boxes meet exactly if there is a point in both, edges included, whichever
/// corners they are given by and whichever of the two comes first.
pub proof fn law_boxes_meet_in_a_point(a: Rect, b: Rect)
    ensures
        a.meets(b) <==> exists|x: int, y: int| is_in(x, y, a) && #[trigger] is_in(x, y, b),
        a.meets(b) == b.meets(a),
{
    if a.meets(b) {
        let x = lemma_common_point(a.x0 as int, a.x1 as int, b.x0 as int, b.x1 as int);
        let y = lemma_common_point(a.y0 as int, a.y1 as int, b.y0 as int, b.y1 as int);
        assert(is_in(x, y, a) && is_in(x, y, b));
    }
}

proof fn lemma_common_point(a0: int, a1: int, b0: int, b1: int) -> (p: int)
    requires
        ranges_meet(a0, a1, b0, b1),
    ensures
        a0 <= p <= a1 || a1 <= p <= a0,
        b0 <= p <= b1 || b1 <= p <= b0,
{
    let a = if a0 < a1 {
        a0
    } else {
        a1
    };
    let b = if b0 < b1 {
        b0
    } else {
        b1
    };
    if a < b {
        b
    } else {
        a
    }
}

} // verus!
