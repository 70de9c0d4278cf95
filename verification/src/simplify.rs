//! Ramer-Douglas-Peucker simplification of polylines.
//!
//! How far a point is from the line between two others is a quotient that
//! rounds, so the caller supplies the distances: [`Simplifier::range`] names
//! two points, the caller measures all points between them, and
//! [`Simplifier::measured`] goes on from there.

use crate::double::Double;
use vstd::prelude::*;

verus! {

// -- What is kept ----------------------------------------------------------

/// Zero.
pub open spec fn zero() -> Double {
    Double { bits: 0 }
}

/// The first of the greatest distances among the first `n`, with its place;
/// zero where none is greater.
pub open spec fn farthest(distances: Seq<Double>, n: nat) -> (int, Double)
    decreases n,
{
    if n == 0 {
        (0, zero())
    } else {
        let best = farthest(distances, (n - 1) as nat);
        if best.1.below(distances[n - 1]) {
            (n - 1, distances[n - 1])
        } else {
            best
        }
    }
}

/// The place at which a range is split: the farthest point, where it is
/// farther than `epsilon`.
pub open spec fn split_at(distances: Seq<Double>, epsilon: Double) -> Option<int> {
    let (i, greatest) = farthest(distances, distances.len());
    if epsilon.below(greatest) {
        Some(i)
    } else {
        None
    }
}

/// The points that are kept of the range from `low` to `high`, without the
/// last, where `measure` gives the distances of the points between two others.
pub open spec fn kept_starts(
    measure: spec_fn(int, int) -> Seq<Double>,
    epsilon: Double,
    low: int,
    high: int,
) -> Seq<int>
    decreases high - low,
{
    if high <= low {
        Seq::empty()
    } else if high - low < 2 {
        seq![low]
    } else {
        match split_at(measure(low, high), epsilon) {
            Some(i) => if 0 <= i < high - low - 1 {
                kept_starts(measure, epsilon, low, low + 1 + i) + kept_starts(
                    measure,
                    epsilon,
                    low + 1 + i,
                    high,
                )
            } else {
                seq![low]
            },
            None => seq![low],
        }
    }
}

/// The points that are kept of a path of `n` points: all where there are less
/// than three, else those that the splits leave, and the last.
pub open spec fn kept_points(
    measure: spec_fn(int, int) -> Seq<Double>,
    epsilon: Double,
    n: nat,
) -> Seq<int> {
    if n == 0 {
        Seq::empty()
    } else {
        kept_starts(measure, epsilon, 0, n - 1).push(n - 1)
    }
}

proof fn lemma_kept_starts(
    measure: spec_fn(int, int) -> Seq<Double>,
    epsilon: Double,
    low: int,
    high: int,
)
    requires
        low < high,
    ensures
        kept_starts(measure, epsilon, low, high).len() > 0,
        kept_starts(measure, epsilon, low, high).first() == low,
        forall|i: int|
            0 <= i < kept_starts(measure, epsilon, low, high).len() ==> low
                <= #[trigger] kept_starts(measure, epsilon, low, high)[i] < high,
        forall|i: int, j: int|
            0 <= i < j < kept_starts(measure, epsilon, low, high).len() ==> #[trigger] kept_starts(
                measure,
                epsilon,
                low,
                high,
            )[i] < #[trigger] kept_starts(measure, epsilon, low, high)[j],
    decreases high - low,
{
    if high - low >= 2 {
        if let Some(i) = split_at(measure(low, high), epsilon) {
            if 0 <= i < high - low - 1 {
                lemma_kept_starts(measure, epsilon, low, low + 1 + i);
                lemma_kept_starts(measure, epsilon, low + 1 + i, high);
            }
        }
    }
}

/// A simplified path has the ends of the path, and its points in their order,
/// none twice.
pub proof fn law_ends_are_kept(
    measure: spec_fn(int, int) -> Seq<Double>,
    epsilon: Double,
    n: nat,
)
    requires
        n > 0,
    ensures
        kept_points(measure, epsilon, n).first() == 0,
        kept_points(measure, epsilon, n).last() == n - 1,
        forall|i: int, j: int|
            0 <= i < j < kept_points(measure, epsilon, n).len() ==> #[trigger] kept_points(
                measure,
                epsilon,
                n,
            )[i] < #[trigger] kept_points(measure, epsilon, n)[j],
{
    if n > 1 {
        lemma_kept_starts(measure, epsilon, 0, n - 1);
    }
}

// -- Steps -----------------------------------------------------------------

/// A simplification under way: the points kept so far, and the ranges still to
/// be looked at, the next one last.
pub struct Course {
    pub kept: Seq<int>,
    pub pending: Seq<(int, int)>,
}

impl Course {
    /// The course with the ranges that need no measuring done.
    pub open spec fn settled(self) -> Course
        decreases self.pending.len(),
    {
        if self.pending.len() == 0 {
            self
        } else {
            let (low, high) = self.pending.last();
            if high - low >= 2 {
                self
            } else {
                Course {
                    kept: if high <= low {
                        self.kept
                    } else {
                        self.kept.push(low)
                    },
                    pending: self.pending.drop_last(),
                }.settled()
            }
        }
    }

    /// The course of a path of `n` points at its start.
    pub open spec fn start(n: nat) -> Course {
        Course {
            kept: Seq::empty(),
            pending: if n == 0 {
                Seq::empty()
            } else {
                seq![(0int, n - 1)]
            },
        }.settled()
    }

    /// The course after the points of the next range were measured.
    pub open spec fn advanced(self, distances: Seq<Double>, epsilon: Double) -> Course {
        let (low, high) = self.pending.last();
        let rest = self.pending.drop_last();
        match split_at(distances, epsilon) {
            Some(i) => Course {
                kept: self.kept,
                pending: rest.push((low + 1 + i, high)).push((low, low + 1 + i)),
            }.settled(),
            None => Course { kept: self.kept.push(low), pending: rest }.settled(),
        }
    }

    /// What the course leads to: all that will be kept, without the last point.
    pub open spec fn outcome(
        self,
        measure: spec_fn(int, int) -> Seq<Double>,
        epsilon: Double,
    ) -> Seq<int>
        decreases self.pending.len(),
    {
        if self.pending.len() == 0 {
            self.kept
        } else {
            let (low, high) = self.pending.last();
            Course {
                kept: self.kept + kept_starts(measure, epsilon, low, high),
                pending: self.pending.drop_last(),
            }.outcome(measure, epsilon)
        }
    }
}

proof fn lemma_settling_keeps_outcome(
    c: Course,
    measure: spec_fn(int, int) -> Seq<Double>,
    epsilon: Double,
)
    ensures
        c.settled().outcome(measure, epsilon) == c.outcome(measure, epsilon),
    decreases c.pending.len(),
{
    if c.pending.len() > 0 {
        let (low, high) = c.pending.last();
        if high - low < 2 {
            let next = Course {
                kept: if high <= low {
                    c.kept
                } else {
                    c.kept.push(low)
                },
                pending: c.pending.drop_last(),
            };
            assert(next.kept =~= c.kept + kept_starts(measure, epsilon, low, high));
            lemma_settling_keeps_outcome(next, measure, epsilon);
        }
    }
}

proof fn lemma_farthest(distances: Seq<Double>, n: nat)
    requires
        n <= distances.len(),
    ensures
        ({
            let (i, greatest) = farthest(distances, n);
            greatest == zero() || (0 <= i < n && greatest == distances[i])
        }),
    decreases n,
{
    if n > 0 {
        lemma_farthest(distances, (n - 1) as nat);
    }
}

proof fn lemma_split_is_inside(distances: Seq<Double>, epsilon: Double)
    requires
        !epsilon.below(zero()),
    ensures
        split_at(distances, epsilon) matches Some(i) ==> 0 <= i < distances.len(),
{
    lemma_farthest(distances, distances.len());
}

/// Asking for the distances one range at a time keeps the same points as the
/// recursion on both halves: the start of a course leads to the kept points,
/// and a step with the true distances does not change what it leads to.
pub proof fn law_steps_keep_the_outcome(
    c: Course,
    measure: spec_fn(int, int) -> Seq<Double>,
    epsilon: Double,
    n: nat,
)
    requires
        !epsilon.below(zero()),
        c.pending.len() > 0 ==> c.pending.last().1 - c.pending.last().0 >= 2,
        c.pending.len() > 0 ==> measure(c.pending.last().0, c.pending.last().1).len()
            == c.pending.last().1 - c.pending.last().0 - 1,
    ensures
        n > 0 ==> Course::start(n).outcome(measure, epsilon).push(n - 1) == kept_points(
            measure,
            epsilon,
            n,
        ),
        c.pending.len() > 0 ==> c.advanced(
            measure(c.pending.last().0, c.pending.last().1),
            epsilon,
        ).outcome(measure, epsilon) == c.outcome(measure, epsilon),
        c.pending.len() == 0 ==> c.outcome(measure, epsilon) == c.kept,
{
    if n > 0 {
        let first = Course { kept: Seq::empty(), pending: seq![(0int, n - 1)] };
        lemma_settling_keeps_outcome(first, measure, epsilon);
        let done = Course {
            kept: first.kept + kept_starts(measure, epsilon, 0, n - 1),
            pending: first.pending.drop_last(),
        };
        assert(first.outcome(measure, epsilon) == done.outcome(measure, epsilon));
        assert(done.kept =~= kept_starts(measure, epsilon, 0, n - 1));
    }
    if c.pending.len() > 0 {
        let (low, high) = c.pending.last();
        let distances = measure(low, high);
        let rest = c.pending.drop_last();
        lemma_split_is_inside(distances, epsilon);
        let done = Course {
            kept: c.kept + kept_starts(measure, epsilon, low, high),
            pending: rest,
        };
        assert(c.outcome(measure, epsilon) == done.outcome(measure, epsilon));
        match split_at(distances, epsilon) {
            Some(i) => {
                let m = low + 1 + i;
                let split = Course {
                    kept: c.kept,
                    pending: rest.push((m, high)).push((low, m)),
                };
                lemma_settling_keeps_outcome(split, measure, epsilon);
                let left = Course {
                    kept: c.kept + kept_starts(measure, epsilon, low, m),
                    pending: rest.push((m, high)),
                };
                assert(split.pending.drop_last() =~= left.pending);
                assert(split.outcome(measure, epsilon) == left.outcome(measure, epsilon));
                let both = Course {
                    kept: left.kept + kept_starts(measure, epsilon, m, high),
                    pending: rest,
                };
                assert(left.pending.drop_last() =~= rest);
                assert(left.outcome(measure, epsilon) == both.outcome(measure, epsilon));
                assert(both.kept =~= done.kept);
            },
            None => {
                let split = Course { kept: c.kept.push(low), pending: rest };
                lemma_settling_keeps_outcome(split, measure, epsilon);
                assert(split.kept =~= done.kept);
            },
        }
    }
}

// -- Simplifier ------------------------------------------------------------

/// Finds the points of a polyline that are kept, one range at a time.
pub struct Simplifier {
    pub kept: Vec<usize>,
    pub pending: Vec<(usize, usize)>,
    /// The number of points.
    pub len: usize,
}

/// Ranges as integers.
pub open spec fn range_ints(ranges: Seq<(usize, usize)>) -> Seq<(int, int)> {
    Seq::new(ranges.len(), |i: int| (ranges[i].0 as int, ranges[i].1 as int))
}

/// Places as integers.
pub open spec fn place_ints(places: Seq<usize>) -> Seq<int> {
    Seq::new(places.len(), |i: int| places[i] as int)
}

impl View for Simplifier {
    type V = Course;

    open spec fn view(&self) -> Course {
        Course { kept: place_ints(self.kept@), pending: range_ints(self.pending@) }
    }
}

impl Simplifier {
    /// All places are those of points, and the next range has points to
    /// measure.
    pub open spec fn wf(&self) -> bool {
        &&& self.ranges_ok()
        &&& self.pending@.len() > 0 ==> self.pending@.last().1 - self.pending@.last().0 >= 2
    }

    pub open spec fn ranges_ok(&self) -> bool {
        &&& forall|i: int| 0 <= i < self.kept@.len() ==> #[trigger] self.kept@[i] < self.len
        &&& forall|i: int|
            0 <= i < self.pending@.len() ==> (#[trigger] self.pending@[i]).0
                <= self.pending@[i].1 < self.len
    }

    /// Start on a path of `n` points.
    pub fn new(n: usize) -> (r: Self)
        ensures
            r.wf(),
            r.len == n,
            r@ == Course::start(n as nat),
    {
        let mut pending: Vec<(usize, usize)> = Vec::new();
        if n > 0 {
            pending.push((0, n - 1));
        }
        let mut s: Simplifier = Simplifier { kept: Vec::new(), pending, len: n };
        proof {
            let first = Course {
                kept: Seq::empty(),
                pending: if n == 0 {
                    Seq::empty()
                } else {
                    seq![(0int, n - 1)]
                },
            };
            assert(s@.kept =~= first.kept);
            assert(s@.pending =~= first.pending);
        }
        s.settle();
        s
    }

    fn settle(&mut self)
        requires
            old(self).ranges_ok(),
        ensures
            final(self).wf(),
            final(self).len == old(self).len,
            final(self)@ == old(self)@.settled(),
    {
        loop
            invariant
                self.ranges_ok(),
                self.len == old(self).len,
                self@.settled() == old(self)@.settled(),
            decreases self.pending@.len(),
        {
            let n: usize = self.pending.len();
            if n == 0 {
                return;
            }
            let (low, high): (usize, usize) = self.pending[n - 1];
            assert(self@.pending.last() == (low as int, high as int));
            if high - low >= 2 {
                return;
            }
            let ghost before = self@;
            self.pending.pop();
            assert(self@.pending =~= before.pending.drop_last());
            if low < high {
                self.kept.push(low);
                assert(self@.kept =~= before.kept.push(low as int));
            } else {
                assert(self@.kept =~= before.kept);
            }
        }
    }

    /// The next two points between which the distances are asked for.
    pub fn range(&self) -> (r: Option<(usize, usize)>)
        requires
            self.wf(),
        ensures
            match r {
                Some((low, high)) => self@.pending.len() > 0 && self@.pending.last() == (
                    low as int,
                    high as int,
                ) && low + 2 <= high < self.len,
                None => self@.pending.len() == 0,
            },
    {
        let n: usize = self.pending.len();
        if n == 0 {
            None
        } else {
            Some(self.pending[n - 1])
        }
    }

    /// Go on with the distances of the points between the two of
    /// [`Simplifier::range`], in order.
    pub fn measured(&mut self, distances: &Vec<Double>, epsilon: &Double)
        requires
            old(self).wf(),
            old(self)@.pending.len() > 0,
            distances@.len() == old(self)@.pending.last().1 - old(self)@.pending.last().0 - 1,
            !epsilon.below(zero()),
        ensures
            final(self).wf(),
            final(self).len == old(self).len,
            final(self)@ == old(self)@.advanced(distances@, *epsilon),
    {
        let mut best: Double = Double::from_bits(0);
        let mut place: usize = 0;
        let mut i: usize = 0;
        while i < distances.len()
            invariant
                i <= distances@.len(),
                (place as int, best) == farthest(distances@, i as nat),
            decreases distances@.len() - i,
        {
            if best.is_below(&distances[i]) {
                best = distances[i];
                place = i;
            }
            i = i + 1;
        }
        let split: bool = epsilon.is_below(&best);
        proof {
            lemma_split_is_inside(distances@, *epsilon);
        }
        let ghost before = self@;
        let n: usize = self.pending.len();
        let (low, high): (usize, usize) = self.pending[n - 1];
        assert(before.pending.last() == (low as int, high as int));
        self.pending.pop();
        assert(self@.pending =~= before.pending.drop_last());
        if split {
            let m: usize = low + 1 + place;
            self.pending.push((m, high));
            self.pending.push((low, m));
            assert(self@.pending =~= before.pending.drop_last().push((m as int, high as int)).push(
                (low as int, m as int),
            ));
            assert(self@.kept =~= before.kept);
        } else {
            self.kept.push(low);
            assert(self@.kept =~= before.kept.push(low as int));
        }
        self.settle();
    }

    /// The places of the points that are kept, once no range is left.
    pub fn points(&self) -> (r: Vec<usize>)
        requires
            self.wf(),
        ensures
            place_ints(r@) == if self.len == 0 {
                self@.kept
            } else {
                self@.kept.push(self.len - 1)
            },
            forall|i: int| 0 <= i < r@.len() ==> #[trigger] r@[i] < self.len,
    {
        let mut places: Vec<usize> = Vec::new();
        let mut i: usize = 0;
        while i < self.kept.len()
            invariant
                i <= self.kept@.len(),
                places@ == self.kept@.take(i as int),
            decreases self.kept@.len() - i,
        {
            places.push(self.kept[i]);
            assert(places@ =~= self.kept@.take(i + 1));
            i = i + 1;
        }
        assert(places@ =~= self.kept@);
        if self.len > 0 {
            places.push(self.len - 1);
            assert(place_ints(places@) =~= self@.kept.push(self.len - 1));
        }
        places
    }
}

// -- What simplification keeps ---------------------------------------------

/// Whether all distances are numbers.
pub open spec fn are_numbers(distances: Seq<Double>) -> bool {
    forall|k: int| 0 <= k < distances.len() ==> !(#[trigger] distances[k]).nan()
}

/// A range is split at the first of its farthest points if that is farther than
/// `epsilon`, and is not split if no point is.
pub proof fn law_ranges_are_split_at_the_farthest_point(
    distances: Seq<Double>,
    epsilon: Double,
    k: int,
)
    requires
        are_numbers(distances),
        !epsilon.nan(),
        epsilon.value() >= 0,
        0 <= k < distances.len(),
    ensures
        split_at(distances, epsilon) is None <==> forall|j: int|
            0 <= j < distances.len() ==> (#[trigger] distances[j]).value() <= epsilon.value(),
        split_at(distances, epsilon) matches Some(i) ==> {
            &&& 0 <= i < distances.len()
            &&& distances[i].value() > epsilon.value()
            &&& distances[k].value() <= distances[i].value()
            &&& k < i ==> distances[k].value() < distances[i].value()
        },
{
    lemma_farthest_is_greatest(distances, distances.len());
    lemma_farthest(distances, distances.len());
    lemma_zero_value();
    let (i, greatest) = farthest(distances, distances.len());
    if epsilon.below(greatest) {
        assert(distances[i].value() > epsilon.value());
    } else {
        assert forall|j: int| 0 <= j < distances.len() implies (#[trigger] distances[j]).value()
            <= epsilon.value() by {}
    }
}

proof fn lemma_zero_value()
    ensures
        zero().value() == 0,
        !zero().nan(),
{
    crate::double::law_patterns_stand_for_numbers(false, 0, 0, zero());
}

proof fn lemma_farthest_is_greatest(distances: Seq<Double>, n: nat)
    requires
        n <= distances.len(),
        are_numbers(distances),
    ensures
        ({
            let (i, greatest) = farthest(distances, n);
            &&& !greatest.nan()
            &&& greatest.value() >= 0
            &&& forall|j: int|
                0 <= j < n ==> (#[trigger] distances[j]).value() <= greatest.value()
            &&& greatest.value() > 0 ==> 0 <= i < n && greatest == distances[i] && forall|j: int|
                0 <= j < i ==> (#[trigger] distances[j]).value() < greatest.value()
        }),
    decreases n,
{
    lemma_zero_value();
    if n > 0 {
        lemma_farthest_is_greatest(distances, (n - 1) as nat);
        assert(!distances[n - 1].nan());
    }
}

/// Whether a measure gives a number for each point between two others.
pub open spec fn measures_all(measure: spec_fn(int, int) -> Seq<Double>) -> bool {
    forall|low: int, high: int|
        low + 1 < high ==> (#[trigger] measure(low, high)).len() == high - low - 1 && are_numbers(
            measure(low, high),
        )
}

/// What is left out between two kept points is no farther than `epsilon` from
/// the line between these two.
pub proof fn law_dropped_points_are_near_the_line(
    measure: spec_fn(int, int) -> Seq<Double>,
    epsilon: Double,
    n: nat,
    i: int,
    k: int,
)
    requires
        measures_all(measure),
        !epsilon.nan(),
        epsilon.value() >= 0,
        0 <= i < kept_points(measure, epsilon, n).len() - 1,
        kept_points(measure, epsilon, n)[i] < k < kept_points(measure, epsilon, n)[i + 1],
    ensures
        ({
            let (a, b) = (
                kept_points(measure, epsilon, n)[i],
                kept_points(measure, epsilon, n)[i + 1],
            );
            measure(a, b)[k - a - 1].value() <= epsilon.value()
        }),
{
    lemma_dropped_between(measure, epsilon, 0, n - 1, i, k);
}

proof fn lemma_dropped_between(
    measure: spec_fn(int, int) -> Seq<Double>,
    epsilon: Double,
    low: int,
    high: int,
    i: int,
    k: int,
)
    requires
        measures_all(measure),
        !epsilon.nan(),
        epsilon.value() >= 0,
        0 <= i < kept_starts(measure, epsilon, low, high).len(),
        kept_starts(measure, epsilon, low, high).push(high)[i] < k < kept_starts(
            measure,
            epsilon,
            low,
            high,
        ).push(high)[i + 1],
    ensures
        ({
            let all = kept_starts(measure, epsilon, low, high).push(high);
            measure(all[i], all[i + 1])[k - all[i] - 1].value() <= epsilon.value()
        }),
    decreases high - low,
{
    let starts = kept_starts(measure, epsilon, low, high);
    let all = starts.push(high);
    if high - low >= 2 {
        let distances = measure(low, high);
        assert(distances.len() == high - low - 1 && are_numbers(distances));
        law_ranges_are_split_at_the_farthest_point(distances, epsilon, 0);
        match split_at(distances, epsilon) {
            Some(s) => {
                let m = low + 1 + s;
                let left = kept_starts(measure, epsilon, low, m);
                let right = kept_starts(measure, epsilon, m, high);
                lemma_kept_starts(measure, epsilon, low, m);
                lemma_kept_starts(measure, epsilon, m, high);
                assert(starts == left + right);
                if i < left.len() {
                    assert(all[i] == left.push(m)[i]);
                    assert(all[i + 1] == left.push(m)[i + 1]);
                    lemma_dropped_between(measure, epsilon, low, m, i, k);
                } else {
                    let j = i - left.len();
                    assert(all[i] == right.push(high)[j]);
                    assert(all[i + 1] == right.push(high)[j + 1]);
                    lemma_dropped_between(measure, epsilon, m, high, j, k);
                }
            },
            None => {
                assert(starts == seq![low]);
                assert(all[0] == low && all[1] == high);
                assert(distances[k - low - 1].value() <= epsilon.value());
            },
        }
    }
}

/// The point at which a path is split is kept. Where no point is farther than
/// `epsilon` from the line between the ends, only the ends are kept.
pub proof fn law_the_farthest_point_is_kept(
    measure: spec_fn(int, int) -> Seq<Double>,
    epsilon: Double,
    n: nat,
)
    requires
        measures_all(measure),
        !epsilon.nan(),
        epsilon.value() >= 0,
        n >= 3,
    ensures
        split_at(measure(0, n - 1), epsilon) matches Some(i) ==> kept_points(
            measure,
            epsilon,
            n,
        ).contains(1 + i),
        (forall|j: int|
            0 <= j < n - 2 ==> (#[trigger] measure(0, n - 1)[j]).value() <= epsilon.value())
            ==> kept_points(measure, epsilon, n) == seq![0int, n - 1],
{
    let distances = measure(0, n - 1);
    assert(distances.len() == n - 2 && are_numbers(distances));
    law_ranges_are_split_at_the_farthest_point(distances, epsilon, 0);
    if let Some(i) = split_at(distances, epsilon) {
        let m = 1 + i;
        let left = kept_starts(measure, epsilon, 0, m);
        lemma_kept_starts(measure, epsilon, m, n - 1);
        assert(kept_points(measure, epsilon, n)[left.len() as int] == m);
    } else {
        assert(kept_points(measure, epsilon, n) =~= seq![0int, n - 1]);
    }
}

} // verus!
