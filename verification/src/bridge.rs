//! Bridge fill: closes narrow gaps between bodies of water.
//!
//! Neighbouring water polygons may leave seams of empty pixels between them.
//! The fill works on the pixels of one tile: it labels the connected bodies of
//! water, spreads from their shores through the empty pixels, and fills an
//! empty pixel that two different bodies reach from opposite sides within a
//! short distance, one of them being an ocean.

use crate::braille_buffer::{ColorIdx, Grid};
use crate::canvas::Canvas;
use std::collections::VecDeque;
use vstd::arithmetic::div_mod::*;
use vstd::prelude::*;

verus! {

// -- The field -------------------------------------------------------------

/// The pixels of a tile, row by row: 0 is empty, 1 is water, 2 is anything
/// else.
pub struct Field {
    pub w: int,
    pub h: int,
    pub mask: Seq<u8>,
}

impl Field {
    pub open spec fn wf(self) -> bool {
        &&& 0 < self.w
        &&& 0 < self.h
        &&& self.mask.len() == self.w * self.h
    }

    pub open spec fn len(self) -> int {
        self.mask.len() as int
    }

    pub open spec fn water(self, i: int) -> bool {
        0 <= i < self.len() && self.mask[i] == 1
    }

    pub open spec fn empty(self, i: int) -> bool {
        0 <= i < self.len() && self.mask[i] == 0
    }

    /// The pixel left of, right of, above or below pixel `i` (`d` = 0, 1, 2,
    /// 3); -1 where there is none.
    pub open spec fn neighbor(self, i: int, d: int) -> int {
        if d == 0 {
            if i % self.w > 0 {
                i - 1
            } else {
                -1
            }
        } else if d == 1 {
            if i % self.w + 1 < self.w {
                i + 1
            } else {
                -1
            }
        } else if d == 2 {
            if i >= self.w {
                i - self.w
            } else {
                -1
            }
        } else {
            if i + self.w < self.len() {
                i + self.w
            } else {
                -1
            }
        }
    }

    pub open spec fn adjacent(self, i: int, j: int) -> bool {
        ||| j == self.neighbor(i, 0)
        ||| j == self.neighbor(i, 1)
        ||| j == self.neighbor(i, 2)
        ||| j == self.neighbor(i, 3)
    }

    /// Whether `j` can be reached from `i` in `k` steps over water.
    pub open spec fn connected_in(self, i: int, j: int, k: nat) -> bool
        decreases k,
    {
        if k == 0 {
            i == j && self.water(i)
        } else {
            self.water(j) && exists|m: int|
                #![trigger self.adjacent(m, j)]
                self.connected_in(i, m, (k - 1) as nat) && self.adjacent(m, j)
        }
    }

    /// Whether two pixels belong to one body of water.
    pub open spec fn connected(self, i: int, j: int) -> bool {
        exists|k: nat| self.connected_in(i, j, k)
    }

    /// Whether pixel `i` is the first of its body of water.
    pub open spec fn is_seed(self, i: int) -> bool {
        self.water(i) && forall|j: int| 0 <= j < i ==> !self.connected(i, j)
    }

    /// How many bodies of water start before pixel `n`.
    pub open spec fn seeds_before(self, n: nat) -> nat
        decreases n,
    {
        if n == 0 {
            0
        } else {
            self.seeds_before((n - 1) as nat) + if self.is_seed(n - 1) {
                1nat
            } else {
                0
            }
        }
    }

    /// Whether `c` is the label of pixel `i`: 0 off the water, else the number
    /// of its body of water, counted in the order of their first pixels. Labels
    /// end at 65535.
    pub open spec fn labeled(self, i: int, c: int) -> bool {
        if self.water(i) {
            exists|s: int|
                #![trigger self.is_seed(s)]
                self.is_seed(s) && self.connected(s, i) && c == label_number(
                    self.seeds_before((s + 1) as nat),
                )
        } else {
            c == 0
        }
    }
}

/// The label of the `n`-th body of water.
pub open spec fn label_number(n: nat) -> int {
    if n < 65535 {
        n as int
    } else {
        65535
    }
}

proof fn lemma_neighbor_in_range(f: Field, i: int, d: int)
    requires
        f.wf(),
        0 <= i < f.len(),
        0 <= d < 4,
    ensures
        f.neighbor(i, d) == -1 || 0 <= f.neighbor(i, d) < f.len(),
{
    if d == 1 && i % f.w + 1 < f.w {
        lemma_fundamental_div_mod(i, f.w);
        let q = i / f.w;
        assert(q < f.h) by (nonlinear_arith)
            requires
                i == f.w * q + i % f.w,
                i % f.w >= 0,
                i < f.w * f.h,
                f.w > 0,
        ;
        assert(i + 1 < f.w * f.h) by (nonlinear_arith)
            requires
                i == f.w * q + i % f.w,
                i % f.w + 1 < f.w,
                q < f.h,
                f.w > 0,
        ;
    }
    if d == 0 {
        lemma_mod_bound(i, f.w);
        lemma_fundamental_div_mod(i, f.w);
        if i == 0 {
            lemma_small_mod(0, f.w as nat);
        }
    }
}

/// Adjacency goes both ways.
proof fn lemma_adjacent_symmetric(f: Field, i: int, j: int)
    requires
        f.wf(),
        0 <= i < f.len(),
        0 <= j < f.len(),
        f.adjacent(i, j),
    ensures
        f.adjacent(j, i),
{
    lemma_fundamental_div_mod(i, f.w);
    lemma_mod_bound(i, f.w);
    if j == f.neighbor(i, 0) {
        lemma_fundamental_div_mod_converse(j, f.w, i / f.w, i % f.w - 1);
        assert(i == f.neighbor(j, 1));
    } else if j == f.neighbor(i, 1) {
        lemma_fundamental_div_mod_converse(j, f.w, i / f.w, i % f.w + 1);
        assert(i == f.neighbor(j, 0));
    } else if j == f.neighbor(i, 2) {
        assert(i == f.neighbor(j, 3));
    } else {
        assert(i == f.neighbor(j, 2));
    }
}

proof fn lemma_connected_water(f: Field, i: int, j: int, k: nat)
    requires
        f.connected_in(i, j, k),
    ensures
        f.water(i),
        f.water(j),
    decreases k,
{
    if k > 0 {
        let m = choose|m: int|
            #![trigger f.adjacent(m, j)]
            f.connected_in(i, m, (k - 1) as nat) && f.adjacent(m, j);
        lemma_connected_water(f, i, m, (k - 1) as nat);
    }
}

proof fn lemma_connected_step(f: Field, i: int, m: int, j: int)
    requires
        f.connected(i, m),
        f.adjacent(m, j),
        f.water(j),
    ensures
        f.connected(i, j),
{
    let k = choose|k: nat| f.connected_in(i, m, k);
    assert(f.connected_in(i, j, k + 1));
}

proof fn lemma_connected_self(f: Field, i: int)
    requires
        f.water(i),
    ensures
        f.connected(i, i),
{
    assert(f.connected_in(i, i, 0));
}

proof fn lemma_connected_in_transitive(f: Field, i: int, j: int, l: int, k: nat)
    requires
        f.connected(i, j),
        f.connected_in(j, l, k),
    ensures
        f.connected(i, l),
    decreases k,
{
    if k > 0 {
        let m = choose|m: int|
            #![trigger f.adjacent(m, l)]
            f.connected_in(j, m, (k - 1) as nat) && f.adjacent(m, l);
        lemma_connected_in_transitive(f, i, j, m, (k - 1) as nat);
        lemma_connected_step(f, i, m, l);
    }
}

/// Bodies of water do not overlap.
pub proof fn lemma_connected_transitive(f: Field, i: int, j: int, l: int)
    requires
        f.connected(i, j),
        f.connected(j, l),
    ensures
        f.connected(i, l),
{
    let k = choose|k: nat| f.connected_in(j, l, k);
    lemma_connected_in_transitive(f, i, j, l, k);
}

proof fn lemma_connected_in_symmetric(f: Field, i: int, j: int, k: nat)
    requires
        f.wf(),
        f.connected_in(i, j, k),
    ensures
        f.connected(j, i),
    decreases k,
{
    if k == 0 {
        lemma_connected_self(f, i);
    } else {
        let m = choose|m: int|
            #![trigger f.adjacent(m, j)]
            f.connected_in(i, m, (k - 1) as nat) && f.adjacent(m, j);
        lemma_connected_water(f, i, m, (k - 1) as nat);
        lemma_connected_in_symmetric(f, i, m, (k - 1) as nat);
        lemma_adjacent_symmetric(f, m, j);
        lemma_connected_self(f, j);
        lemma_connected_step(f, j, j, m);
        lemma_connected_transitive(f, j, m, i);
    }
}

pub proof fn lemma_connected_symmetric(f: Field, i: int, j: int)
    requires
        f.wf(),
        f.connected(i, j),
    ensures
        f.connected(j, i),
{
    let k = choose|k: nat| f.connected_in(i, j, k);
    lemma_connected_in_symmetric(f, i, j, k);
}

/// A set of pixels that holds the water next to each of its pixels.
pub open spec fn closed_over(f: Field, s: spec_fn(int) -> bool) -> bool {
    forall|a: int, b: int|
        #![trigger f.adjacent(a, b)]
        s(a) && f.water(a) && f.water(b) && f.adjacent(a, b) ==> s(b)
}

proof fn lemma_closed_holds_body(f: Field, s: spec_fn(int) -> bool, i: int, j: int, k: nat)
    requires
        closed_over(f, s),
        s(i),
        f.connected_in(i, j, k),
    ensures
        s(j),
    decreases k,
{
    if k > 0 {
        let m = choose|m: int|
            #![trigger f.adjacent(m, j)]
            f.connected_in(i, m, (k - 1) as nat) && f.adjacent(m, j);
        lemma_closed_holds_body(f, s, i, m, (k - 1) as nat);
        lemma_connected_water(f, i, m, (k - 1) as nat);
    }
}

/// Every pixel has one label.
pub proof fn law_labels_are_unique(f: Field, i: int, c: int, d: int)
    requires
        f.wf(),
        f.labeled(i, c),
        f.labeled(i, d),
    ensures
        c == d,
{
    if f.water(i) {
        let s = choose|s: int|
            #![trigger f.is_seed(s)]
            f.is_seed(s) && f.connected(s, i) && c == label_number(f.seeds_before((s + 1) as nat));
        let t = choose|t: int|
            #![trigger f.is_seed(t)]
            f.is_seed(t) && f.connected(t, i) && d == label_number(f.seeds_before((t + 1) as nat));
        lemma_connected_symmetric(f, s, i);
        lemma_connected_symmetric(f, t, i);
        lemma_connected_transitive(f, s, i, t);
        lemma_connected_transitive(f, t, i, s);
        if s < t {
            assert(!f.connected(t, s));
        } else if t < s {
            assert(!f.connected(s, t));
        }
    }
}

/// Pixels of one body of water carry the same label.
pub proof fn law_connected_pixels_share_a_label(f: Field, i: int, j: int, c: int)
    requires
        f.wf(),
        f.connected(i, j),
        f.labeled(i, c),
    ensures
        f.labeled(j, c),
{
    let k = choose|k: nat| f.connected_in(i, j, k);
    lemma_connected_water(f, i, j, k);
    let s = choose|s: int|
        #![trigger f.is_seed(s)]
        f.is_seed(s) && f.connected(s, i) && c == label_number(f.seeds_before((s + 1) as nat));
    lemma_connected_transitive(f, s, i, j);
    assert(f.is_seed(s));
}

// -- Labels ----------------------------------------------------------------

/// The pixels of a tile.
pub struct Pixels {
    pub w: usize,
    pub h: usize,
    pub mask: Vec<u8>,
}

impl View for Pixels {
    type V = Field;

    open spec fn view(&self) -> Field {
        Field { w: self.w as int, h: self.h as int, mask: self.mask@ }
    }
}

/// How many entries are 0.
spec fn zeros(s: Seq<u16>) -> nat
    decreases s.len(),
{
    if s.len() == 0 {
        0
    } else {
        zeros(s.drop_last()) + if s.last() == 0 {
            1nat
        } else {
            0
        }
    }
}

proof fn lemma_zeros_update(s: Seq<u16>, i: int, c: u16)
    requires
        0 <= i < s.len(),
        s[i] == 0,
        c != 0,
    ensures
        zeros(s.update(i, c)) == zeros(s) - 1,
    decreases s.len(),
{
    let t = s.update(i, c);
    if i == s.len() - 1 {
        assert(t.drop_last() =~= s.drop_last());
    } else {
        assert(t.drop_last() =~= s.drop_last().update(i, c));
        lemma_zeros_update(s.drop_last(), i, c);
    }
}

/// Pixels that carry a label.
spec fn marked(comp: Seq<u16>) -> spec_fn(int) -> bool {
    |i: int| 0 <= i < comp.len() && comp[i] != 0
}

impl Pixels {
    pub open spec fn wf(&self) -> bool {
        &&& self@.wf()
        &&& self.w <= 0xffff
        &&& self.h <= 0xffff
    }

    /// The neighbour of a pixel in direction `d`.
    fn neighbor(&self, i: usize, d: u8) -> (r: Option<usize>)
        requires
            self.wf(),
            i < self@.len(),
            d < 4,
        ensures
            match r {
                Some(j) => j == self@.neighbor(i as int, d as int) && j < self@.len(),
                None => self@.neighbor(i as int, d as int) == -1,
            },
    {
        let n: usize = self.mask.len();
        proof {
            lemma_neighbor_in_range(self@, i as int, d as int);
            if i == 0 {
                lemma_small_mod(0, self.w as nat);
            }
        }
        if d == 0 {
            if i % self.w > 0 {
                Some(i - 1)
            } else {
                None
            }
        } else if d == 1 {
            if i % self.w + 1 < self.w {
                Some(i + 1)
            } else {
                None
            }
        } else if d == 2 {
            if i >= self.w {
                Some(i - self.w)
            } else {
                None
            }
        } else {
            if self.w < n - i {
                Some(i + self.w)
            } else {
                None
            }
        }
    }

    /// Label the body of water that holds `seed`.
    fn flood(&self, comp: &mut Vec<u16>, seed: usize, cid: u16)
        requires
            self.wf(),
            old(comp)@.len() == self@.len(),
            self@.water(seed as int),
            old(comp)@[seed as int] == 0,
            closed_over(self@, marked(old(comp)@)),
            forall|j: int|
                0 <= j < self@.len() && #[trigger] old(comp)@[j] != 0 ==> self@.water(j),
            cid != 0,
        ensures
            final(comp)@.len() == old(comp)@.len(),
            closed_over(self@, marked(final(comp)@)),
            forall|j: int|
                0 <= j < self@.len() && old(comp)@[j] != 0 ==> #[trigger] final(comp)@[j] == old(
                    comp,
                )@[j] && !self@.connected(seed as int, j),
            forall|j: int|
                0 <= j < self@.len() && old(comp)@[j] == 0 ==> #[trigger] final(comp)@[j] == (
                if self@.connected(seed as int, j) {
                    cid
                } else {
                    0
                }),
    {
        let ghost f = self@;
        let ghost start = comp@;
        let mut stack: Vec<usize> = Vec::new();
        proof {
            lemma_connected_self(f, seed as int);
            lemma_zeros_update(comp@, seed as int, cid);
        }
        let n: usize = self.mask.len();
        comp.set(seed, cid);
        stack.push(seed);
        assert(stack@[0] == seed);
        while stack.len() > 0
            invariant
                self.wf(),
                f == self@,
                comp@.len() == f.len(),
                start.len() == f.len(),
                cid != 0,
                forall|j: int| 0 <= j < f.len() && start[j] != 0 ==> #[trigger] comp@[j] == start[j],
                forall|j: int|
                    0 <= j < f.len() && start[j] == 0 && #[trigger] comp@[j] != 0 ==> comp@[j]
                        == cid && f.connected(seed as int, j),
                comp@[seed as int] != 0,
                start[seed as int] == 0,
                f.water(seed as int),
                forall|k: int|
                    0 <= k < stack@.len() ==> 0 <= #[trigger] stack@[k] < f.len()
                        && comp@[stack@[k] as int] != 0 && start[stack@[k] as int] == 0,
                forall|a: usize, b: int|
                    #![trigger f.adjacent(a as int, b)]
                    a < f.len() && start[a as int] == 0 && comp@[a as int] != 0
                        && !stack@.contains(a) && f.water(b) && f.adjacent(a as int, b) ==> comp@[b]
                        != 0,
            decreases 2 * zeros(comp@) + stack@.len(),
        {
            let ghost before = stack@;
            let ghost comp0 = comp@;
            let p: usize = match stack.pop() {
                Some(p) => p,
                None => 0,
            };
            proof {
                assert(before.last() == p);
                assert forall|a: usize| a != p && !#[trigger] stack@.contains(
                    a,
                ) implies !before.contains(a) by {
                    if before.contains(a) {
                        let k = choose|k: int| 0 <= k < before.len() && before[k] == a;
                        assert(stack@[k] == a);
                    }
                }
            }
            let mut d: u8 = 0;
            while d < 4
                invariant
                    d <= 4,
                    self.wf(),
                    f == self@,
                    comp@.len() == f.len(),
                    start.len() == f.len(),
                    cid != 0,
                    0 <= p < f.len(),
                    comp@[p as int] != 0,
                    start[p as int] == 0,
                    forall|j: int|
                        0 <= j < f.len() && start[j] != 0 ==> #[trigger] comp@[j] == start[j],
                    forall|j: int|
                        0 <= j < f.len() && start[j] == 0 && #[trigger] comp@[j] != 0 ==> comp@[j]
                            == cid && f.connected(seed as int, j),
                    comp@[seed as int] != 0,
                    start[seed as int] == 0,
                    f.water(seed as int),
                    forall|k: int|
                        0 <= k < stack@.len() ==> 0 <= #[trigger] stack@[k] < f.len()
                            && comp@[stack@[k] as int] != 0 && start[stack@[k] as int] == 0,
                    forall|a: usize, b: int|
                        #![trigger f.adjacent(a as int, b)]
                        a < f.len() && a != p && start[a as int] == 0 && comp@[a as int] != 0
                            && !stack@.contains(a) && f.water(b) && f.adjacent(a as int, b)
                            ==> comp@[b] != 0,
                    forall|e: int|
                        0 <= e < d && f.water(#[trigger] f.neighbor(p as int, e)) ==> comp@[
                            f.neighbor(p as int, e)] != 0,
                    2 * zeros(comp@) + stack@.len() < 2 * zeros(comp0) + before.len(),
                decreases 4 - d,
            {
                if let Some(q) = self.neighbor(p, d) {
                    if self.mask[q] == 1 && comp[q] == 0 {
                        let ghost stack0 = stack@;
                        let ghost comp1 = comp@;
                        proof {
                            assert(f.adjacent(p as int, q as int));
                            lemma_connected_step(f, seed as int, p as int, q as int);
                            lemma_zeros_update(comp@, q as int, cid);
                        }
                        comp.set(q, cid);
                        stack.push(q);
                        proof {
                            assert(stack@.last() == q);
                            assert(stack@.contains(q));
                            assert forall|a: usize| !#[trigger] stack@.contains(
                                a,
                            ) implies !stack0.contains(a) && a != q by {
                                if stack0.contains(a) {
                                    let k = choose|k: int|
                                        0 <= k < stack0.len() && stack0[k] == a;
                                    assert(stack@[k] == a);
                                }
                            }
                        }
                    }
                }
                d = d + 1;
            }
            proof {
                assert forall|b: int|
                    f.water(b) && f.adjacent(p as int, b) implies comp@[b] != 0 by {
                    let e: int = if b == f.neighbor(p as int, 0) {
                        0
                    } else if b == f.neighbor(p as int, 1) {
                        1
                    } else if b == f.neighbor(p as int, 2) {
                        2
                    } else {
                        3
                    };
                    assert(b == f.neighbor(p as int, e));
                }
            }
        }
        proof {
            let m = marked(comp@);
            assert forall|a: int, b: int|
                #![trigger f.adjacent(a, b)]
                m(a) && f.water(a) && f.water(b) && f.adjacent(a, b) implies m(b) by {
                if start[a] != 0 {
                    assert(marked(start)(a));
                    assert(marked(start)(b));
                } else {
                    assert(a < n);
                    let au = a as usize;
                    assert(f.adjacent(au as int, b));
                }
            }
            assert forall|j: int| 0 <= j < f.len() && start[j] == 0 implies #[trigger] comp@[j] == (
            if f.connected(seed as int, j) {
                cid
            } else {
                0
            }) by {
                if f.connected(seed as int, j) {
                    let k = choose|k: nat| f.connected_in(seed as int, j, k);
                    lemma_closed_holds_body(f, m, seed as int, j, k);
                }
            }
            assert forall|j: int| 0 <= j < f.len() && start[j] != 0 implies #[trigger] comp@[j]
                == start[j] && !f.connected(seed as int, j) by {
                if f.connected(seed as int, j) {
                    lemma_connected_symmetric(f, seed as int, j);
                    let k = choose|k: nat| f.connected_in(j, seed as int, k);
                    lemma_closed_holds_body(f, marked(start), j, seed as int, k);
                }
            }
        }
    }
}

/// Whether `c` is the label of a pixel whose body of water starts before `n`.
spec fn labeled_by(f: Field, i: int, c: int, n: int) -> bool {
    exists|s: int|
        #![trigger f.is_seed(s)]
        0 <= s < n && f.is_seed(s) && f.connected(s, i) && c == label_number(
            f.seeds_before((s + 1) as nat),
        )
}

impl Pixels {
    /// Label the bodies of water; also returns the label that a further one
    /// would get.
    pub fn label_components(&self) -> (r: (Vec<u16>, u16))
        requires
            self.wf(),
        ensures
            r.0@.len() == self@.len(),
            forall|i: int| 0 <= i < self@.len() ==> #[trigger] self@.labeled(i, r.0@[i] as int),
            r.1 == label_number(self@.seeds_before(self@.len() as nat) + 1),
    {
        let ghost f = self@;
        let n: usize = self.mask.len();
        let mut comp: Vec<u16> = vec![0u16; n];
        let mut next: u16 = 1;
        let mut i: usize = 0;
        while i < n
            invariant
                self.wf(),
                f == self@,
                n == f.len(),
                i <= n,
                comp@.len() == n,
                next == label_number(f.seeds_before(i as nat) + 1),
                closed_over(f, marked(comp@)),
                forall|j: int| 0 <= j < n && #[trigger] comp@[j] != 0 ==> f.water(j),
                forall|j: int| 0 <= j < i && f.water(j) ==> #[trigger] comp@[j] != 0,
                forall|j: int|
                    0 <= j < n && #[trigger] comp@[j] != 0 ==> labeled_by(
                        f,
                        j,
                        comp@[j] as int,
                        i as int,
                    ),
            decreases n - i,
        {
            let ghost before = comp@;
            if self.mask[i] == 1 && comp[i] == 0 {
                proof {
                    assert forall|j: int| 0 <= j < i implies !f.connected(i as int, j) by {
                        if f.connected(i as int, j) {
                            let k = choose|k: nat| f.connected_in(i as int, j, k);
                            lemma_connected_water(f, i as int, j, k);
                            assert(comp@[j] != 0);
                            lemma_connected_symmetric(f, i as int, j);
                            let m = choose|m: nat| f.connected_in(j, i as int, m);
                            lemma_closed_holds_body(f, marked(comp@), j, i as int, m);
                        }
                    }
                    assert(f.is_seed(i as int));
                    lemma_connected_self(f, i as int);
                }
                self.flood(&mut comp, i, next);
                proof {
                    assert forall|j: int|
                        0 <= j < n && #[trigger] comp@[j] != 0 implies f.water(j) && labeled_by(
                        f,
                        j,
                        comp@[j] as int,
                        i + 1,
                    ) by {
                        if before[j] != 0 {
                            let s = choose|s: int|
                                #![trigger f.is_seed(s)]
                                0 <= s < i && f.is_seed(s) && f.connected(s, j) && before[j]
                                    == label_number(f.seeds_before((s + 1) as nat));
                            assert(f.is_seed(s));
                        } else {
                            let k = choose|k: nat| f.connected_in(i as int, j, k);
                            lemma_connected_water(f, i as int, j, k);
                        }
                    }
                }
                next = if next < 65535 {
                    next + 1
                } else {
                    65535
                };
            } else {
                proof {
                    if f.water(i as int) {
                        // Labeled from an earlier pixel, so not the first.
                        let s = choose|s: int|
                            #![trigger f.is_seed(s)]
                            0 <= s < i && f.is_seed(s) && f.connected(s, i as int)
                                && comp@[i as int] == label_number(f.seeds_before((s + 1) as nat));
                        lemma_connected_symmetric(f, s, i as int);
                    }
                    assert(!f.is_seed(i as int));
                    assert forall|j: int|
                        0 <= j < n && #[trigger] comp@[j] != 0 implies labeled_by(
                        f,
                        j,
                        comp@[j] as int,
                        i + 1,
                    ) by {
                        let s = choose|s: int|
                            #![trigger f.is_seed(s)]
                            0 <= s < i && f.is_seed(s) && f.connected(s, j) && comp@[j]
                                == label_number(f.seeds_before((s + 1) as nat));
                        assert(f.is_seed(s));
                    }
                }
            }
            i = i + 1;
        }
        proof {
            assert forall|j: int| 0 <= j < f.len() implies #[trigger] f.labeled(
                j,
                comp@[j] as int,
            ) by {
                if f.water(j) {
                    assert(comp@[j] != 0);
                    let s = choose|s: int|
                        #![trigger f.is_seed(s)]
                        0 <= s < n && f.is_seed(s) && f.connected(s, j) && comp@[j] == label_number(
                            f.seeds_before((s + 1) as nat),
                        );
                    assert(f.is_seed(s));
                } else if comp@[j] != 0 {
                    assert(f.water(j));
                }
            }
        }
        (comp, next)
    }
}

// -- Oceans ----------------------------------------------------------------

/// The part of a tile that lies within the picture, in pixels of the tile.
pub struct Window {
    pub x0: int,
    pub y0: int,
    pub x1: int,
    pub y1: int,
}

/// The end of the visible part of a tile on one axis.
pub open spec fn visible_end(tile: int, viewport: int, offset: int) -> int {
    if viewport - offset < 0 || tile < viewport - offset {
        tile
    } else {
        viewport - offset
    }
}

/// The visible part of a tile of `w` by `h` pixels at `(x, y)`.
pub open spec fn window_of(w: int, h: int, x: int, y: int, width: int, height: int) -> Window {
    Window {
        x0: if x < 0 {
            -x
        } else {
            0
        },
        y0: if y < 0 {
            -y
        } else {
            0
        },
        x1: visible_end(w, width, x),
        y1: visible_end(h, height, y),
    }
}

/// Whether pixel `i` of a tile lies on the edge of its visible part.
pub open spec fn on_edge(win: Window, w: int, i: int) -> bool {
    let (lx, ly) = (i % w, i / w);
    &&& win.x0 <= win.x1
    &&& win.y0 <= win.y1
    &&& lx == win.x0 || lx + 1 == win.x1 || ly == win.y0 || ly + 1 == win.y1
}

/// How many of the first `n` pixels carry label `c`.
pub open spec fn label_size(comp: Seq<u16>, c: u16, n: nat) -> nat
    decreases n,
{
    if n == 0 {
        0
    } else {
        label_size(comp, c, (n - 1) as nat) + if comp[n - 1] == c {
            1nat
        } else {
            0
        }
    }
}

/// Whether a label with one of the first `n` pixels lies on the edge.
pub open spec fn label_on_edge(comp: Seq<u16>, win: Window, w: int, c: u16, n: int) -> bool {
    exists|i: int| 0 <= i < n && #[trigger] comp[i] == c && on_edge(win, w, i)
}

/// An ocean is a body of water that reaches the edge of the picture and covers
/// at least a twentieth of the tile.
pub open spec fn is_ocean(comp: Seq<u16>, win: Window, w: int, c: u16) -> bool {
    &&& c != 0
    &&& label_on_edge(comp, win, w, c, comp.len() as int)
    &&& label_size(comp, c, comp.len()) >= comp.len() / 20
}

/// The visible part of a tile.
struct VisiblePart {
    x0: i64,
    y0: i64,
    x1: i64,
    y1: i64,
}

impl VisiblePart {
    spec fn window(&self) -> Window {
        Window { x0: self.x0 as int, y0: self.y0 as int, x1: self.x1 as int, y1: self.y1 as int }
    }

    fn new(w: usize, h: usize, x: i32, y: i32, width: usize, height: usize) -> (r: VisiblePart)
        requires
            w <= 0xffff,
            h <= 0xffff,
            width <= i32::MAX,
            height <= i32::MAX,
        ensures
            r.window() == window_of(
                w as int,
                h as int,
                x as int,
                y as int,
                width as int,
                height as int,
            ),
    {
        VisiblePart {
            x0: if x < 0 {
                -(x as i64)
            } else {
                0
            },
            y0: if y < 0 {
                -(y as i64)
            } else {
                0
            },
            x1: Self::end(w, width, x),
            y1: Self::end(h, height, y),
        }
    }

    fn end(tile: usize, viewport: usize, offset: i32) -> (r: i64)
        requires
            tile <= 0xffff,
            viewport <= i32::MAX,
        ensures
            r == visible_end(tile as int, viewport as int, offset as int),
    {
        let rest: i64 = viewport as i64 - offset as i64;
        if rest < 0 || (tile as i64) < rest {
            tile as i64
        } else {
            rest
        }
    }

    fn has_edge(&self, lx: usize, ly: usize, Ghost(w): Ghost<int>, Ghost(i): Ghost<int>) -> (r: bool)
        requires
            lx == i % w,
            ly == i / w,
            lx <= 0xffff,
            ly <= 0xffff,
        ensures
            r == on_edge(self.window(), w, i),
    {
        let (x, y): (i64, i64) = (lx as i64, ly as i64);
        self.x0 <= self.x1 && self.y0 <= self.y1 && (x == self.x0 || x + 1 == self.x1 || y
            == self.y0 || y + 1 == self.y1)
    }
}

proof fn lemma_label_size_bound(comp: Seq<u16>, c: u16, n: nat)
    ensures
        label_size(comp, c, n) <= n,
    decreases n,
{
    if n > 0 {
        lemma_label_size_bound(comp, c, (n - 1) as nat);
    }
}

proof fn lemma_row_below_height(f: Field, i: int)
    requires
        f.wf(),
        0 <= i < f.len(),
    ensures
        0 <= i / f.w < f.h,
        0 <= i % f.w < f.w,
{
    lemma_fundamental_div_mod(i, f.w);
    lemma_mod_bound(i, f.w);
    lemma_div_pos_is_pos(i, f.w);
    let q = i / f.w;
    assert(q < f.h) by (nonlinear_arith)
        requires
            i == f.w * q + i % f.w,
            i % f.w >= 0,
            i < f.w * f.h,
            f.w > 0,
    ;
}

impl Pixels {
    /// Which labels are oceans.
    fn find_oceans(&self, comp: &Vec<u16>, part: &VisiblePart) -> (r: Vec<bool>)
        requires
            self.wf(),
            comp@.len() == self@.len(),
        ensures
            r@.len() == 65536,
            forall|c: u16| #[trigger]
                r@[c as int] == is_ocean(comp@, part.window(), self.w as int, c),
    {
        let ghost win = part.window();
        let ghost w = self.w as int;
        let n: usize = comp.len();
        let mut sizes: Vec<u64> = vec![0u64; 65536];
        let mut edge: Vec<bool> = vec![false; 65536];
        let mut i: usize = 0;
        while i < n
            invariant
                self.wf(),
                win == part.window(),
                w == self.w,
                n == comp@.len(),
                n == self@.len(),
                i <= n,
                sizes@.len() == 65536,
                edge@.len() == 65536,
                forall|c: u16| #[trigger] sizes@[c as int] == label_size(comp@, c, i as nat),
                forall|c: u16| #[trigger]
                    edge@[c as int] == label_on_edge(comp@, win, w, c, i as int),
            decreases n - i,
        {
            let c: u16 = comp[i];
            let ghost sizes0 = sizes@;
            let ghost edge0 = edge@;
            proof {
                lemma_row_below_height(self@, i as int);
                lemma_label_size_bound(comp@, c, i as nat);
                assert(sizes@[c as int] <= i);
            }
            let size: u64 = sizes[c as usize];
            sizes.set(c as usize, size + 1);
            let at_edge: bool = part.has_edge(
                i % self.w,
                i / self.w,
                Ghost(self.w as int),
                Ghost(i as int),
            );
            if at_edge {
                edge.set(c as usize, true);
            }
            proof {
                assert forall|d: u16| #[trigger] sizes@[d as int] == label_size(
                    comp@,
                    d,
                    (i + 1) as nat,
                ) by {
                    assert(sizes0[d as int] == label_size(comp@, d, i as nat));
                }
                assert forall|d: u16| #[trigger] edge@[d as int] == label_on_edge(
                    comp@,
                    win,
                    w,
                    d,
                    i + 1,
                ) by {
                    assert(edge0[d as int] == label_on_edge(comp@, win, w, d, i as int));
                    if edge0[d as int] {
                        let k = choose|k: int|
                            0 <= k < i && #[trigger] comp@[k] == d && on_edge(win, w, k);
                        assert(comp@[k] == d);
                    }
                    if label_on_edge(comp@, win, w, d, i + 1) && !edge0[d as int] {
                        let k = choose|k: int|
                            0 <= k < i + 1 && #[trigger] comp@[k] == d && on_edge(win, w, k);
                        assert(k == i);
                    }
                    if d == c && at_edge {
                        assert(comp@[i as int] == d);
                    }
                }
            }
            i = i + 1;
        }
        let least: u64 = (n / 20) as u64;
        let mut oceans: Vec<bool> = Vec::new();
        let mut c: u32 = 0;
        while c < 65536
            invariant
                c <= 65536,
                n == comp@.len(),
                least == n / 20,
                sizes@.len() == 65536,
                edge@.len() == 65536,
                forall|c: u16| #[trigger] sizes@[c as int] == label_size(comp@, c, n as nat),
                forall|c: u16| #[trigger]
                    edge@[c as int] == label_on_edge(comp@, win, w, c, n as int),
                oceans@.len() == c,
                forall|d: u16|
                    d < c ==> #[trigger] oceans@[d as int] == is_ocean(comp@, win, w, d),
            decreases 65536 - c,
        {
            proof {
                let d = c as u16;
                assert(sizes@[d as int] == label_size(comp@, d, n as nat));
                assert(edge@[d as int] == label_on_edge(comp@, win, w, d, n as int));
            }
            oceans.push(c != 0 && edge[c as usize] && sizes[c as usize] >= least);
            c = c + 1;
        }
        oceans
    }
}

// -- Spreading from the shores ---------------------------------------------

/// How a body of water reaches an empty pixel: its label, over how many steps,
/// and from which pixel. Label 0: not reached.
#[derive(Clone, Copy)]
pub struct Hit {
    pub comp: u16,
    pub dist: u16,
    pub sx: u16,
    pub sy: u16,
}

/// A pixel from which the spreading goes on.
#[derive(Clone, Copy)]
pub struct Front {
    pub at: usize,
    pub hit: Hit,
}

/// The state of the spreading: for each pixel the first two distinct bodies of
/// water that enter it, and the pixels that are still to be left.
#[verifier::ext_equal]
pub struct Spread {
    pub first: Seq<Hit>,
    pub second: Seq<Hit>,
    pub queue: Seq<Front>,
}

/// The hit of an empty pixel that nothing reaches.
pub open spec fn no_hit() -> Hit {
    Hit { comp: 0, dist: 0, sx: 0, sy: 0 }
}

impl Field {
    /// Whether a pixel of water has an empty one beside it.
    pub open spec fn is_shore(self, i: int) -> bool {
        &&& self.water(i)
        &&& self.empty(self.neighbor(i, 0)) || self.empty(self.neighbor(i, 1)) || self.empty(
            self.neighbor(i, 2),
        ) || self.empty(self.neighbor(i, 3))
    }

    /// The front that starts at a shore pixel.
    pub open spec fn shore_front(self, comp: Seq<u16>, i: int) -> Front {
        Front {
            at: i as usize,
            hit: Hit {
                comp: comp[i],
                dist: 0,
                sx: (i % self.w) as u16,
                sy: (i / self.w) as u16,
            },
        }
    }

    /// Whether a way of `k` steps leads from shore pixel `s` through empty pixels
    /// to pixel `i`.
    pub open spec fn way(self, s: int, i: int, k: nat) -> bool
        decreases k,
    {
        if k == 0 {
            i == s && self.is_shore(s)
        } else {
            self.empty(i) && exists|m: int|
                #![trigger self.adjacent(m, i)]
                self.way(s, m, (k - 1) as nat) && self.adjacent(m, i)
        }
    }

    /// Whether a body of water is `k` steps from pixel `i`.
    pub open spec fn comes(self, comp: Seq<u16>, c: u16, i: int, k: nat) -> bool {
        exists|s: int| 0 <= s < comp.len() && comp[s] == c && #[trigger] self.way(s, i, k)
    }

    /// Whether a hit tells where a body of water is: how far from pixel `i`, and
    /// at which of its pixels a way of that length starts.
    pub open spec fn tells(self, comp: Seq<u16>, i: int, h: Hit) -> bool {
        let s = h.sy * self.w + h.sx;
        &&& 0 <= s < comp.len()
        &&& comp[s] == h.comp
        &&& h.comp != 0
        &&& self.way(s, i, h.dist as nat)
    }

    /// The shore pixels among the first `n`, in order.
    pub open spec fn shores(self, comp: Seq<u16>, n: nat) -> Seq<Front>
        decreases n,
    {
        if n == 0 {
            Seq::empty()
        } else {
            let i = n - 1;
            let before = self.shores(comp, i as nat);
            if self.is_shore(i) {
                before.push(self.shore_front(comp, i))
            } else {
                before
            }
        }
    }

    /// The state before the spreading starts.
    pub open spec fn spread_start(self, comp: Seq<u16>) -> Spread {
        Spread {
            first: Seq::new(self.mask.len(), |i: int| no_hit()),
            second: Seq::new(self.mask.len(), |i: int| no_hit()),
            queue: self.shores(comp, self.mask.len()),
        }
    }

    /// The state after a front has entered the neighbour in direction `d`. It
    /// goes on from there where it is the first to come, or the first of its
    /// body to come this soon; else, where it is of another body, it is noted as
    /// the second.
    pub open spec fn enter(self, st: Spread, from: Front, d: int) -> Spread {
        let j = self.neighbor(from.at as int, d);
        let hit = Hit { dist: (from.hit.dist + 1) as u16, ..from.hit };
        if !self.empty(j) {
            st
        } else {
            let h1 = st.first[j];
            let h2 = st.second[j];
            if h1.comp == 0 || (h1.comp == hit.comp && hit.dist < h1.dist) {
                Spread {
                    first: st.first.update(j, hit),
                    queue: st.queue.push(Front { at: j as usize, hit }),
                    ..st
                }
            } else if h1.comp != hit.comp && (h2.comp == 0 || (h2.comp == hit.comp && hit.dist
                < h2.dist)) {
                Spread { second: st.second.update(j, hit), ..st }
            } else {
                st
            }
        }
    }

    /// The state after the front of the queue was left in the first `d`
    /// directions.
    pub open spec fn leave(self, st: Spread, from: Front, d: nat) -> Spread
        decreases d,
    {
        if d == 0 {
            st
        } else {
            self.enter(self.leave(st, from, (d - 1) as nat), from, d - 1)
        }
    }

    /// One step of the spreading: the front of the queue is left, unless it has
    /// come as far as a gap may be wide.
    pub open spec fn spread_step(self, st: Spread, gap_max: int) -> Spread {
        if st.queue.len() == 0 {
            st
        } else {
            let from = st.queue.first();
            let popped = Spread { queue: st.queue.drop_first(), ..st };
            if from.hit.dist >= gap_max {
                popped
            } else {
                self.leave(popped, from, 4)
            }
        }
    }

    /// The state after `k` steps.
    pub open spec fn spread_run(self, st: Spread, gap_max: int, k: nat) -> Spread
        decreases k,
    {
        if k == 0 {
            st
        } else {
            self.spread_step(self.spread_run(st, gap_max, (k - 1) as nat), gap_max)
        }
    }

    /// Whether `end` is the state in which the spreading ends.
    pub open spec fn spread_ends(self, comp: Seq<u16>, gap_max: int, end: Spread) -> bool {
        end.queue.len() == 0 && exists|k: nat|
            end == #[trigger] self.spread_run(self.spread_start(comp), gap_max, k)
    }
}

proof fn lemma_run_settles(f: Field, st: Spread, gap_max: int, k: nat, m: nat)
    requires
        k <= m,
        f.spread_run(st, gap_max, k).queue.len() == 0,
    ensures
        f.spread_run(st, gap_max, m) == f.spread_run(st, gap_max, k),
    decreases m,
{
    if k < m {
        lemma_run_settles(f, st, gap_max, k, (m - 1) as nat);
    }
}

/// The spreading ends in one state only.
pub proof fn law_spreading_is_deterministic(
    f: Field,
    comp: Seq<u16>,
    gap_max: int,
    a: Spread,
    b: Spread,
)
    requires
        f.spread_ends(comp, gap_max, a),
        f.spread_ends(comp, gap_max, b),
    ensures
        a == b,
{
    let st = f.spread_start(comp);
    let k = choose|k: nat| a == #[trigger] f.spread_run(st, gap_max, k);
    let m = choose|m: nat| b == #[trigger] f.spread_run(st, gap_max, m);
    if k <= m {
        lemma_run_settles(f, st, gap_max, k, m);
    } else {
        lemma_run_settles(f, st, gap_max, m, k);
    }
}

// What is known while the spreading runs. All that was noted lies no further
// than one step beyond the level of the fronts in the queue, and a front that
// has left the queue has been noted by its neighbours, or they had noted two
// bodies before.

/// Whether a hit comes from a neighbour of pixel `i`: from the shore, or from an
/// empty pixel that its body was the first to enter.
pub open spec fn from_beside(
    f: Field,
    comp: Seq<u16>,
    first: Seq<Hit>,
    i: int,
    h: Hit,
) -> bool {
    exists|m: int|
        #![trigger f.adjacent(m, i)]
        f.adjacent(m, i) && ((h.dist == 1 && f.is_shore(m) && comp[m] == h.comp) || (f.empty(m)
            && first[m].comp == h.comp && first[m].dist + 1 == h.dist))
}

spec fn place_ok(f: Field, comp: Seq<u16>, gap_max: int, level: int, st: Spread, i: int) -> bool {
    let (h1, h2) = (st.first[i], st.second[i]);
    &&& h1.comp != 0 ==> f.empty(i) && 1 <= h1.dist <= gap_max && h1.dist <= level + 1 && f.tells(
        comp,
        i,
        h1,
    )
    &&& h2.comp != 0 ==> f.empty(i) && 1 <= h2.dist <= gap_max && h2.dist <= level + 1 && f.tells(
        comp,
        i,
        h2,
    ) && h1.comp != 0 && h1.comp != h2.comp && h1.dist <= h2.dist && from_beside(
        f,
        comp,
        st.first,
        i,
        h2,
    )
}

spec fn front_ok(
    f: Field,
    comp: Seq<u16>,
    gap_max: int,
    level: int,
    st: Spread,
    x: Front,
) -> bool {
    &&& x.at < f.len()
    &&& (x.hit.dist == 0 && f.is_shore(x.at as int)) || (f.empty(x.at as int) && x.hit
        == st.first[x.at as int])
    &&& level <= x.hit.dist <= level + 1
    &&& x.hit.dist <= gap_max
    &&& f.tells(comp, x.at as int, x.hit)
}

spec fn orderly(f: Field, comp: Seq<u16>, gap_max: int, level: int, st: Spread) -> bool {
    &&& st.first.len() == f.len()
    &&& st.second.len() == f.len()
    &&& forall|i: int| 0 <= i < f.len() ==> #[trigger] place_ok(f, comp, gap_max, level, st, i)
    &&& forall|q: int|
        0 <= q < st.queue.len() ==> front_ok(f, comp, gap_max, level, st, #[trigger] st.queue[q])
    &&& forall|a: int, b: int|
        0 <= a <= b < st.queue.len() ==> (#[trigger] st.queue[a]).hit.dist <= (
        #[trigger] st.queue[b]).hit.dist
}

/// Whether pixel `j` has noted a body as the first within `k` steps, or two.
spec fn covers(st: Spread, j: int, c: u16, k: int) -> bool {
    let (h1, h2) = (st.first[j], st.second[j]);
    ||| h1.comp == c && h1.dist <= k
    ||| h1.comp != 0 && h2.comp != 0 && h2.dist <= k
}

spec fn known(f: Field, comp: Seq<u16>, st: Spread, x: Front) -> bool {
    &&& x.at < f.len()
    &&& x.hit.comp != 0
    &&& x.hit == st.first[x.at as int] || (f.is_shore(x.at as int) && x == f.shore_front(
        comp,
        x.at as int,
    ))
}

spec fn settled(f: Field, gap_max: int, st: Spread, x: Front) -> bool {
    x.hit.dist >= gap_max || forall|d: int|
        0 <= d < 4 && f.empty(#[trigger] f.neighbor(x.at as int, d)) ==> covers(
            st,
            f.neighbor(x.at as int, d),
            x.hit.comp,
            x.hit.dist + 1,
        )
}

spec fn complete(
    f: Field,
    comp: Seq<u16>,
    gap_max: int,
    st: Spread,
    but: Option<Front>,
) -> bool {
    forall|x: Front| #[trigger]
        known(f, comp, st, x) ==> st.queue.contains(x) || settled(f, gap_max, st, x) || but == Some(
            x,
        )
}

/// Whether `b` holds all that `a` holds.
spec fn grown(a: Spread, b: Spread) -> bool {
    &&& a.first.len() == b.first.len()
    &&& a.second.len() == b.second.len()
    &&& forall|i: int|
        0 <= i < a.first.len() && (#[trigger] a.first[i]).comp != 0 ==> b.first[i] == a.first[i]
    &&& forall|i: int|
        0 <= i < a.second.len() && (#[trigger] a.second[i]).comp != 0 ==> b.second[i] == a.second[i]
}

proof fn lemma_settled_stays(f: Field, gap_max: int, a: Spread, b: Spread, x: Front)
    requires
        grown(a, b),
        a.first.len() == f.len(),
        a.second.len() == f.len(),
        x.hit.comp != 0,
        settled(f, gap_max, a, x),
    ensures
        settled(f, gap_max, b, x),
{
    if x.hit.dist < gap_max {
        assert forall|d: int| 0 <= d < 4 && f.empty(#[trigger] f.neighbor(x.at as int, d)) implies covers(
            b,
            f.neighbor(x.at as int, d),
            x.hit.comp,
            x.hit.dist + 1,
        ) by {
            let j = f.neighbor(x.at as int, d);
            assert(covers(a, j, x.hit.comp, x.hit.dist + 1));
            assert(a.first[j].comp != 0 ==> b.first[j] == a.first[j]);
            assert(a.second[j].comp != 0 ==> b.second[j] == a.second[j]);
        }
    }
}

proof fn lemma_enter(
    f: Field,
    comp: Seq<u16>,
    gap_max: int,
    st: Spread,
    from: Front,
    d: int,
)
    requires
        f.wf(),
        f.len() <= usize::MAX,
        gap_max <= u16::MAX,
        0 <= d < 4,
        orderly(f, comp, gap_max, from.hit.dist as int, st),
        complete(f, comp, gap_max, st, Some(from)),
        front_ok(f, comp, gap_max, from.hit.dist as int, st, from),
        from.hit.dist < gap_max,
    ensures
        orderly(f, comp, gap_max, from.hit.dist as int, f.enter(st, from, d)),
        complete(f, comp, gap_max, f.enter(st, from, d), Some(from)),
        grown(st, f.enter(st, from, d)),
        f.empty(f.neighbor(from.at as int, d)) ==> covers(
            f.enter(st, from, d),
            f.neighbor(from.at as int, d),
            from.hit.comp,
            from.hit.dist + 1,
        ),
{
    let j = f.neighbor(from.at as int, d);
    let hit = Hit { dist: (from.hit.dist + 1) as u16, ..from.hit };
    let next = f.enter(st, from, d);
    let level = from.hit.dist as int;
    if f.empty(j) {
        assert(place_ok(f, comp, gap_max, level, st, j));
        assert(f.adjacent(from.at as int, j));
        let s = from.hit.sy * f.w + from.hit.sx;
        assert(f.way(s, j, (from.hit.dist + 1) as nat));
        assert(f.tells(comp, j, hit));
        let x = Front { at: j as usize, hit };
        assert(from.hit.dist == 0 ==> s == from.at);
        assert(from_beside(f, comp, st.first, j, hit));
        if next != st {
            assert(grown(st, next));
            assert(next.queue == st.queue || next.queue == st.queue.push(x));
            assert forall|i: int| 0 <= i < f.len() implies #[trigger] place_ok(
                f,
                comp,
                gap_max,
                level,
                next,
                i,
            ) by {
                assert(place_ok(f, comp, gap_max, level, st, i));
                if next.second[i].comp != 0 {
                    lemma_beside_stays(f, comp, st, next, i, next.second[i]);
                }
            }
            assert forall|q: int| 0 <= q < next.queue.len() implies front_ok(
                f,
                comp,
                gap_max,
                level,
                next,
                #[trigger] next.queue[q],
            ) by {
                if q < st.queue.len() {
                    assert(front_ok(f, comp, gap_max, level, st, st.queue[q]));
                }
            }
            assert forall|a: int, b: int| 0 <= a <= b < next.queue.len() implies (
            #[trigger] next.queue[a]).hit.dist <= (#[trigger] next.queue[b]).hit.dist by {
                if a < st.queue.len() {
                    assert(front_ok(f, comp, gap_max, level, st, st.queue[a]));
                }
            }
            assert forall|y: Front| #[trigger] known(f, comp, next, y) implies next.queue.contains(y)
                || settled(f, gap_max, next, y) || Some(from) == Some(y) by {
                if known(f, comp, st, y) {
                    if st.queue.contains(y) {
                        let q = choose|q: int| 0 <= q < st.queue.len() && st.queue[q] == y;
                        assert(next.queue[q] == y);
                    } else if settled(f, gap_max, st, y) {
                        lemma_settled_stays(f, gap_max, st, next, y);
                    }
                } else {
                    assert(y == x);
                    assert(next.queue[st.queue.len() as int] == y);
                }
            }
        }
    }
}

proof fn lemma_beside_stays(
    f: Field,
    comp: Seq<u16>,
    a: Spread,
    b: Spread,
    i: int,
    h: Hit,
)
    requires
        grown(a, b),
        a.first.len() == f.len(),
        h.comp != 0,
        from_beside(f, comp, a.first, i, h),
    ensures
        from_beside(f, comp, b.first, i, h),
{
    let m = choose|m: int|
        #![trigger f.adjacent(m, i)]
        f.adjacent(m, i) && ((h.dist == 1 && f.is_shore(m) && comp[m] == h.comp) || (f.empty(m)
            && a.first[m].comp == h.comp && a.first[m].dist + 1 == h.dist));
    assert(f.adjacent(m, i));
}

proof fn lemma_leave(
    f: Field,
    comp: Seq<u16>,
    gap_max: int,
    st: Spread,
    from: Front,
    d: nat,
)
    requires
        f.wf(),
        f.len() <= usize::MAX,
        gap_max <= u16::MAX,
        d <= 4,
        orderly(f, comp, gap_max, from.hit.dist as int, st),
        complete(f, comp, gap_max, st, Some(from)),
        front_ok(f, comp, gap_max, from.hit.dist as int, st, from),
        from.hit.dist < gap_max,
    ensures
        orderly(f, comp, gap_max, from.hit.dist as int, f.leave(st, from, d)),
        grown(st, f.leave(st, from, d)),
        complete(f, comp, gap_max, f.leave(st, from, d), Some(from)),
        forall|e: int|
            0 <= e < d && f.empty(#[trigger] f.neighbor(from.at as int, e)) ==> covers(
                f.leave(st, from, d),
                f.neighbor(from.at as int, e),
                from.hit.comp,
                from.hit.dist + 1,
            ),
    decreases d,
{
    if d > 0 {
        let before = f.leave(st, from, (d - 1) as nat);
        lemma_leave(f, comp, gap_max, st, from, (d - 1) as nat);
        assert(f.empty(from.at as int) ==> before.first[from.at as int] == from.hit);
        lemma_enter(f, comp, gap_max, before, from, d - 1);
        let after = f.leave(st, from, d);
        assert forall|e: int|
            0 <= e < d && f.empty(#[trigger] f.neighbor(from.at as int, e)) implies covers(
            after,
            f.neighbor(from.at as int, e),
            from.hit.comp,
            from.hit.dist + 1,
        ) by {
            let j = f.neighbor(from.at as int, e);
            if e < d - 1 {
                assert(covers(before, j, from.hit.comp, from.hit.dist + 1));
                assert(before.first[j].comp != 0 ==> after.first[j] == before.first[j]);
                assert(before.second[j].comp != 0 ==> after.second[j] == before.second[j]);
            }
        }
    }
}

proof fn lemma_spread_step(
    f: Field,
    comp: Seq<u16>,
    gap_max: int,
    level: int,
    st: Spread,
) -> (next: int)
    requires
        f.wf(),
        f.len() <= usize::MAX,
        gap_max <= u16::MAX,
        orderly(f, comp, gap_max, level, st),
        complete(f, comp, gap_max, st, None),
    ensures
        orderly(f, comp, gap_max, next, f.spread_step(st, gap_max)),
        complete(f, comp, gap_max, f.spread_step(st, gap_max), None),
{
    if st.queue.len() == 0 {
        level
    } else {
        let from = st.queue.first();
        let popped = Spread { queue: st.queue.drop_first(), ..st };
        let next = from.hit.dist as int;
        assert(front_ok(f, comp, gap_max, level, st, st.queue[0]));
        assert forall|i: int| 0 <= i < f.len() implies #[trigger] place_ok(
            f,
            comp,
            gap_max,
            next,
            popped,
            i,
        ) by {
            assert(place_ok(f, comp, gap_max, level, st, i));
        }
        assert forall|q: int| 0 <= q < popped.queue.len() implies front_ok(
            f,
            comp,
            gap_max,
            next,
            popped,
            #[trigger] popped.queue[q],
        ) by {
            assert(front_ok(f, comp, gap_max, level, st, st.queue[q + 1]));
            assert(st.queue[0].hit.dist <= st.queue[q + 1].hit.dist);
        }
        assert forall|a: int, b: int| 0 <= a <= b < popped.queue.len() implies (
        #[trigger] popped.queue[a]).hit.dist <= (#[trigger] popped.queue[b]).hit.dist by {
            assert(st.queue[a + 1].hit.dist <= st.queue[b + 1].hit.dist);
        }
        assert forall|x: Front| #[trigger] known(f, comp, popped, x) implies popped.queue.contains(x)
            || settled(f, gap_max, popped, x) || Some(from) == Some(x) by {
            assert(known(f, comp, st, x));
            if st.queue.contains(x) {
                let q = choose|q: int| 0 <= q < st.queue.len() && st.queue[q] == x;
                if q > 0 {
                    assert(popped.queue[q - 1] == x);
                }
            } else {
                assert(settled(f, gap_max, st, x));
                lemma_settled_stays(f, gap_max, st, popped, x);
            }
        }
        let after = f.spread_step(st, gap_max);
        if from.hit.dist >= gap_max {
            assert(settled(f, gap_max, popped, from));
        } else {
            lemma_leave(f, comp, gap_max, popped, from, 4);
            assert(settled(f, gap_max, after, from));
        }
        assert forall|x: Front| #[trigger] known(f, comp, after, x) implies after.queue.contains(x)
            || settled(f, gap_max, after, x) by {}
        next
    }
}

proof fn lemma_spread_start(f: Field, comp: Seq<u16>, gap_max: int)
    requires
        f.wf(),
        f.w <= u16::MAX,
        f.h <= u16::MAX,
        f.len() <= usize::MAX,
        0 <= gap_max,
        comp.len() == f.len(),
        forall|i: int| f.water(i) ==> #[trigger] comp[i] != 0,
    ensures
        orderly(f, comp, gap_max, 0, f.spread_start(comp)),
        complete(f, comp, gap_max, f.spread_start(comp), None),
{
    let st = f.spread_start(comp);
    lemma_shores(f, comp, f.mask.len());
    assert forall|i: int| 0 <= i < f.len() implies #[trigger] place_ok(
        f,
        comp,
        gap_max,
        0,
        st,
        i,
    ) by {}
    assert forall|q: int| 0 <= q < st.queue.len() implies front_ok(
        f,
        comp,
        gap_max,
        0,
        st,
        #[trigger] st.queue[q],
    ) by {
        assert(starts_at_shore(f, comp, f.len(), st.queue[q]));
        let i = choose|i: int|
            0 <= i < f.len() && f.is_shore(i) && st.queue[q] == #[trigger] f.shore_front(comp, i);
        lemma_shore_tells(f, comp, i);
    }
    assert forall|x: Front| #[trigger] known(f, comp, st, x) implies st.queue.contains(x) by {
        assert(st.queue.contains(f.shore_front(comp, x.at as int)));
    }
}

spec fn starts_at_shore(f: Field, comp: Seq<u16>, n: int, x: Front) -> bool {
    exists|i: int| 0 <= i < n && f.is_shore(i) && x == #[trigger] f.shore_front(comp, i)
}

/// The fronts at the start are those of the shore pixels.
proof fn lemma_shores(f: Field, comp: Seq<u16>, n: nat)
    requires
        n <= f.len(),
    ensures
        forall|q: int|
            0 <= q < f.shores(comp, n).len() ==> starts_at_shore(
                f,
                comp,
                n as int,
                #[trigger] f.shores(comp, n)[q],
            ),
        forall|i: int|
            0 <= i < n && #[trigger] f.is_shore(i) ==> f.shores(comp, n).contains(
                f.shore_front(comp, i),
            ),
    decreases n,
{
    if n > 0 {
        let before = f.shores(comp, (n - 1) as nat);
        let all = f.shores(comp, n);
        lemma_shores(f, comp, (n - 1) as nat);
        assert forall|q: int| 0 <= q < all.len() implies starts_at_shore(
            f,
            comp,
            n as int,
            #[trigger] all[q],
        ) by {
            if q < before.len() {
                assert(starts_at_shore(f, comp, n - 1, before[q]));
            } else {
                assert(all[q] == f.shore_front(comp, n - 1));
            }
        }
        assert forall|i: int| 0 <= i < n && #[trigger] f.is_shore(i) implies all.contains(
            f.shore_front(comp, i),
        ) by {
            if i < n - 1 {
                let q = choose|q: int|
                    0 <= q < before.len() && before[q] == f.shore_front(comp, i);
                assert(all[q] == f.shore_front(comp, i));
            } else {
                assert(all[before.len() as int] == f.shore_front(comp, i));
            }
        }
    }
}

proof fn lemma_shore_tells(f: Field, comp: Seq<u16>, i: int)
    requires
        f.wf(),
        f.w <= u16::MAX,
        f.h <= u16::MAX,
        f.len() <= usize::MAX,
        comp.len() == f.len(),
        f.is_shore(i),
        comp[i] != 0,
    ensures
        f.tells(comp, i, f.shore_front(comp, i).hit),
        f.shore_front(comp, i).at == i,
{
    lemma_row_below_height(f, i);
    lemma_mod_bound(i, f.w);
    lemma_fundamental_div_mod(i, f.w);
    lemma_div_pos_is_pos(i, f.w);
    let h = f.shore_front(comp, i).hit;
    assert(h.sy * f.w + h.sx == i) by (nonlinear_arith)
        requires
            h.sy == i / f.w,
            h.sx == i % f.w,
            i == f.w * (i / f.w) + i % f.w,
    ;
}

proof fn lemma_spread_run(f: Field, comp: Seq<u16>, gap_max: int, k: nat) -> (level: int)
    requires
        f.wf(),
        f.w <= u16::MAX,
        f.h <= u16::MAX,
        f.len() <= usize::MAX,
        0 <= gap_max <= u16::MAX,
        comp.len() == f.len(),
        forall|i: int| f.water(i) ==> #[trigger] comp[i] != 0,
    ensures
        orderly(f, comp, gap_max, level, f.spread_run(f.spread_start(comp), gap_max, k)),
        complete(f, comp, gap_max, f.spread_run(f.spread_start(comp), gap_max, k), None),
    decreases k,
{
    if k == 0 {
        lemma_spread_start(f, comp, gap_max);
        0
    } else {
        let level = lemma_spread_run(f, comp, gap_max, (k - 1) as nat);
        let before = f.spread_run(f.spread_start(comp), gap_max, (k - 1) as nat);
        lemma_spread_step(f, comp, gap_max, level, before)
    }
}

/// Once the queue is empty, what a neighbour was the first to note has been
/// noted.
proof fn lemma_neighbour_is_covered(
    f: Field,
    comp: Seq<u16>,
    gap_max: int,
    end: Spread,
    m: int,
    i: int,
)
    requires
        f.wf(),
        f.w <= u16::MAX,
        f.h <= u16::MAX,
        f.len() <= usize::MAX,
        comp.len() == f.len(),
        complete(f, comp, gap_max, end, None),
        end.queue.len() == 0,
        f.adjacent(m, i),
        f.empty(i),
    ensures
        f.is_shore(m) && comp[m] != 0 && gap_max > 0 ==> covers(end, i, comp[m], 1),
        f.empty(m) && end.first[m].comp != 0 && end.first[m].dist < gap_max ==> covers(
            end,
            i,
            end.first[m].comp,
            end.first[m].dist + 1,
        ),
{
    let d: int = if i == f.neighbor(m, 0) {
        0
    } else if i == f.neighbor(m, 1) {
        1
    } else if i == f.neighbor(m, 2) {
        2
    } else {
        3
    };
    assert(f.neighbor(m, d) == i);
    if f.is_shore(m) && comp[m] != 0 && gap_max > 0 {
        lemma_shore_tells(f, comp, m);
        let x = f.shore_front(comp, m);
        assert(known(f, comp, end, x));
        assert(settled(f, gap_max, end, x));
    }
    if f.empty(m) && end.first[m].comp != 0 && end.first[m].dist < gap_max {
        let x = Front { at: m as usize, hit: end.first[m] };
        assert(known(f, comp, end, x));
        assert(settled(f, gap_max, end, x));
    }
}

/// Once the queue is empty, no body is nearer than the one that was noted first.
proof fn lemma_first_is_nearest(
    f: Field,
    comp: Seq<u16>,
    gap_max: int,
    level: int,
    end: Spread,
    s: int,
    i: int,
    k: nat,
)
    requires
        f.wf(),
        f.w <= u16::MAX,
        f.h <= u16::MAX,
        f.len() <= usize::MAX,
        comp.len() == f.len(),
        orderly(f, comp, gap_max, level, end),
        complete(f, comp, gap_max, end, None),
        end.queue.len() == 0,
        1 <= k <= gap_max,
        0 <= s < comp.len(),
        comp[s] != 0,
        f.way(s, i, k),
    ensures
        end.first[i].comp != 0,
        end.first[i].dist <= k,
    decreases k,
{
    let m = choose|m: int|
        #![trigger f.adjacent(m, i)]
        f.way(s, m, (k - 1) as nat) && f.adjacent(m, i);
    lemma_neighbour_is_covered(f, comp, gap_max, end, m, i);
    assert(place_ok(f, comp, gap_max, level, end, i));
    if k > 1 {
        lemma_first_is_nearest(f, comp, gap_max, level, end, s, m, (k - 1) as nat);
    }
}

/// At its end the spreading has noted first, for each empty pixel, the nearest
/// body of water within the gap, with its distance and a pixel of it that is so
/// far away.
pub proof fn law_nearest_body_is_found(
    f: Field,
    comp: Seq<u16>,
    gap_max: int,
    end: Spread,
    i: int,
)
    requires
        f.wf(),
        f.w <= u16::MAX,
        f.h <= u16::MAX,
        f.len() <= usize::MAX,
        0 <= gap_max <= u16::MAX,
        labels_of(f, comp),
        f.spread_ends(comp, gap_max, end),
        f.empty(i),
    ensures
        end.first[i].comp != 0 ==> f.tells(comp, i, end.first[i]) && 1 <= end.first[i].dist
            <= gap_max,
        forall|c: u16, k: nat|
            c != 0 && 1 <= k <= gap_max && #[trigger] f.comes(comp, c, i, k) ==> end.first[i].comp
                != 0 && end.first[i].dist <= k,
{
    let level = lemma_spread_ends(f, comp, gap_max, end);
    assert(place_ok(f, comp, gap_max, level, end, i));
    assert forall|c: u16, k: nat|
        c != 0 && 1 <= k <= gap_max && #[trigger] f.comes(comp, c, i, k) implies end.first[i].comp
        != 0 && end.first[i].dist <= k by {
        let s = choose|s: int| 0 <= s < comp.len() && comp[s] == c && #[trigger] f.way(s, i, k);
        lemma_first_is_nearest(f, comp, gap_max, level, end, s, i, k);
    }
}

/// What is noted second for an empty pixel is the nearest of the other bodies
/// that come from beside it: from the shore, or from an empty pixel that they
/// were the first to enter.
pub proof fn law_second_body_comes_from_beside(
    f: Field,
    comp: Seq<u16>,
    gap_max: int,
    end: Spread,
    i: int,
)
    requires
        f.wf(),
        f.w <= u16::MAX,
        f.h <= u16::MAX,
        f.len() <= usize::MAX,
        0 <= gap_max <= u16::MAX,
        labels_of(f, comp),
        f.spread_ends(comp, gap_max, end),
        f.empty(i),
    ensures
        end.second[i].comp != 0 ==> {
            &&& f.tells(comp, i, end.second[i])
            &&& end.second[i].dist <= gap_max
            &&& end.first[i].comp != 0
            &&& end.first[i].comp != end.second[i].comp
            &&& end.first[i].dist <= end.second[i].dist
            &&& from_beside(f, comp, end.first, i, end.second[i])
        },
        forall|h: Hit|
            1 <= h.dist <= gap_max && h.comp != 0 && h.comp != end.first[i].comp
                && #[trigger] from_beside(f, comp, end.first, i, h) ==> end.second[i].comp != 0
                && end.second[i].dist <= h.dist,
{
    let level = lemma_spread_ends(f, comp, gap_max, end);
    assert(place_ok(f, comp, gap_max, level, end, i));
    assert forall|h: Hit|
        1 <= h.dist <= gap_max && h.comp != 0 && h.comp != end.first[i].comp
            && #[trigger] from_beside(f, comp, end.first, i, h) implies end.second[i].comp != 0
        && end.second[i].dist <= h.dist by {
        let m = choose|m: int|
            #![trigger f.adjacent(m, i)]
            f.adjacent(m, i) && ((h.dist == 1 && f.is_shore(m) && comp[m] == h.comp) || (f.empty(m)
                && end.first[m].comp == h.comp && end.first[m].dist + 1 == h.dist));
        lemma_neighbour_is_covered(f, comp, gap_max, end, m, i);
    }
}

proof fn lemma_spread_ends(f: Field, comp: Seq<u16>, gap_max: int, end: Spread) -> (level: int)
    requires
        f.wf(),
        f.w <= u16::MAX,
        f.h <= u16::MAX,
        f.len() <= usize::MAX,
        0 <= gap_max <= u16::MAX,
        labels_of(f, comp),
        f.spread_ends(comp, gap_max, end),
    ensures
        orderly(f, comp, gap_max, level, end),
        complete(f, comp, gap_max, end, None),
{
    assert forall|j: int| f.water(j) implies #[trigger] comp[j] != 0 by {
        assert(f.labeled(j, comp[j] as int));
        lemma_water_label_positive(f, j, comp[j] as int);
    }
    let steps = choose|steps: nat|
        end == #[trigger] f.spread_run(f.spread_start(comp), gap_max, steps);
    lemma_spread_run(f, comp, gap_max, steps)
}

/// How much closer a pixel may still be reached.
spec fn potential(h: Hit, gap_max: int) -> nat {
    if h.comp == 0 {
        (gap_max + 1) as nat
    } else {
        h.dist as nat
    }
}

spec fn total_potential(s: Seq<Hit>, gap_max: int) -> nat
    decreases s.len(),
{
    if s.len() == 0 {
        0
    } else {
        total_potential(s.drop_last(), gap_max) + potential(s.last(), gap_max)
    }
}

proof fn lemma_potential_update(s: Seq<Hit>, i: int, h: Hit, gap_max: int)
    requires
        0 <= i < s.len(),
    ensures
        total_potential(s.update(i, h), gap_max) + potential(s[i], gap_max) == total_potential(
            s,
            gap_max,
        ) + potential(h, gap_max),
    decreases s.len(),
{
    let t = s.update(i, h);
    if i == s.len() - 1 {
        assert(t.drop_last() =~= s.drop_last());
    } else {
        assert(t.drop_last() =~= s.drop_last().update(i, h));
        lemma_potential_update(s.drop_last(), i, h, gap_max);
    }
}

proof fn lemma_water_label_positive(f: Field, i: int, c: int)
    requires
        f.labeled(i, c),
        f.water(i),
    ensures
        c > 0,
{
    let s = choose|s: int|
        #![trigger f.is_seed(s)]
        f.is_seed(s) && f.connected(s, i) && c == label_number(f.seeds_before((s + 1) as nat));
    assert(f.seeds_before((s + 1) as nat) >= 1);
}

/// The spreading while it runs.
struct SpreadRun {
    first: Vec<Hit>,
    second: Vec<Hit>,
    queue: VecDeque<Front>,
}

impl View for SpreadRun {
    type V = Spread;

    closed spec fn view(&self) -> Spread {
        Spread { first: self.first@, second: self.second@, queue: self.queue@ }
    }
}

impl SpreadRun {
    spec fn wf(&self, f: Field) -> bool {
        &&& self.first@.len() == f.len()
        &&& self.second@.len() == f.len()
        &&& forall|k: int|
            0 <= k < self.queue@.len() ==> (#[trigger] self.queue@[k]).at < f.len()
                && self.queue@[k].hit.comp != 0
    }
}

impl Pixels {
    fn enter(&self, st: &mut SpreadRun, from: Front, d: u8, gap_max: u16)
        requires
            self.wf(),
            old(st).wf(self@),
            from.at < self@.len(),
            from.hit.comp != 0,
            from.hit.dist < gap_max,
            d < 4,
        ensures
            final(st).wf(self@),
            final(st)@ == self@.enter(old(st)@, from, d as int),
            total_potential(final(st)@.first, gap_max as int) + final(st)@.queue.len()
                <= total_potential(old(st)@.first, gap_max as int) + old(st)@.queue.len(),
    {
        let j: usize = match self.neighbor(from.at, d) {
            Some(j) => j,
            None => {
                return;
            },
        };
        if self.mask[j] != 0 {
            return;
        }
        let hit: Hit = Hit {
            comp: from.hit.comp,
            dist: from.hit.dist + 1,
            sx: from.hit.sx,
            sy: from.hit.sy,
        };
        let h1: Hit = st.first[j];
        if h1.comp == 0 || (h1.comp == hit.comp && hit.dist < h1.dist) {
            proof {
                lemma_potential_update(st.first@, j as int, hit, gap_max as int);
            }
            st.first.set(j, hit);
            st.queue.push_back(Front { at: j, hit });
        } else if h1.comp != hit.comp {
            let h2: Hit = st.second[j];
            if h2.comp == 0 || (h2.comp == hit.comp && hit.dist < h2.dist) {
                st.second.set(j, hit);
            }
        }
    }

    fn find_shores(&self, comp: &Vec<u16>) -> (r: VecDeque<Front>)
        requires
            self.wf(),
            comp@.len() == self@.len(),
            forall|i: int| 0 <= i < self@.len() ==> #[trigger] self@.labeled(i, comp@[i] as int),
        ensures
            r@ == self@.shores(comp@, self@.mask.len()),
            forall|k: int|
                0 <= k < r@.len() ==> (#[trigger] r@[k]).at < self@.len() && r@[k].hit.comp != 0,
    {
        let n: usize = self.mask.len();
        let mut queue: VecDeque<Front> = VecDeque::new();
        let mut i: usize = 0;
        while i < n
            invariant
                self.wf(),
                n == self@.len(),
                i <= n,
                comp@.len() == n,
                forall|i: int| 0 <= i < n ==> #[trigger] self@.labeled(i, comp@[i] as int),
                queue@ == self@.shores(comp@, i as nat),
                forall|k: int|
                    0 <= k < queue@.len() ==> (#[trigger] queue@[k]).at < n && queue@[k].hit.comp
                        != 0,
            decreases n - i,
        {
            if self.mask[i] == 1 {
                let mut shore: bool = false;
                let mut d: u8 = 0;
                while d < 4
                    invariant
                        d <= 4,
                        self.wf(),
                        i < n,
                        n == self@.len(),
                        shore == exists|e: int|
                            0 <= e < d && self@.empty(#[trigger] self@.neighbor(i as int, e)),
                    decreases 4 - d,
                {
                    let ghost was = shore;
                    if let Some(j) = self.neighbor(i, d) {
                        if self.mask[j] == 0 {
                            shore = true;
                        }
                    }
                    proof {
                        assert(shore == (was || self@.empty(self@.neighbor(i as int, d as int))));
                        if was {
                            let e = choose|e: int|
                                0 <= e < d && self@.empty(#[trigger] self@.neighbor(i as int, e));
                            assert(self@.empty(self@.neighbor(i as int, e)));
                        }
                    }
                    d = d + 1;
                }
                proof {
                    let f = self@;
                    assert(shore == f.is_shore(i as int)) by {
                        if f.is_shore(i as int) {
                            let e: int = if f.empty(f.neighbor(i as int, 0)) {
                                0
                            } else if f.empty(f.neighbor(i as int, 1)) {
                                1
                            } else if f.empty(f.neighbor(i as int, 2)) {
                                2
                            } else {
                                3
                            };
                            assert(f.empty(f.neighbor(i as int, e)));
                        }
                    }
                    assert(f.labeled(i as int, comp@[i as int] as int));
                    lemma_water_label_positive(f, i as int, comp@[i as int] as int);
                    lemma_row_below_height(f, i as int);
                }
                if shore {
                    queue.push_back(
                        Front {
                            at: i,
                            hit: Hit {
                                comp: comp[i],
                                dist: 0,
                                sx: (i % self.w) as u16,
                                sy: (i / self.w) as u16,
                            },
                        },
                    );
                }
            }
            i = i + 1;
        }
        queue
    }

    /// Spread from the shores through the empty pixels.
    fn spread(&self, comp: &Vec<u16>, gap_max: u16) -> (r: (Vec<Hit>, Vec<Hit>))
        requires
            self.wf(),
            comp@.len() == self@.len(),
            forall|i: int| 0 <= i < self@.len() ==> #[trigger] self@.labeled(i, comp@[i] as int),
        ensures
            r.0@.len() == self@.len(),
            r.1@.len() == self@.len(),
            exists|end: Spread| #[trigger]
                self@.spread_ends(comp@, gap_max as int, end) && end.first == r.0@ && end.second
                    == r.1@,
    {
        let n: usize = self.mask.len();
        let none: Hit = Hit { comp: 0, dist: 0, sx: 0, sy: 0 };
        let mut st: SpreadRun = SpreadRun {
            first: vec![none; n],
            second: vec![none; n],
            queue: self.find_shores(comp),
        };
        let ghost start = self@.spread_start(comp@);
        let ghost mut k: nat = 0;
        assert(st@ =~= start);
        while st.queue.len() > 0
            invariant
                self.wf(),
                st.wf(self@),
                st@ == self@.spread_run(start, gap_max as int, k),
            decreases total_potential(st@.first, gap_max as int) + st@.queue.len(),
        {
            let ghost before = st@;
            let from: Front = match st.queue.pop_front() {
                Some(f) => f,
                None => {
                    return (st.first, st.second);
                },
            };
            let ghost popped = st@;
            proof {
                assert(from == before.queue.first());
                assert(popped.queue =~= before.queue.drop_first());
                assert(popped =~= (Spread { queue: before.queue.drop_first(), ..before }));
                assert forall|m: int| 0 <= m < st.queue@.len() implies (#[trigger] st.queue@[m]).at
                    < self@.len() && st.queue@[m].hit.comp != 0 by {
                    assert(st.queue@[m] == before.queue[m + 1]);
                }
            }
            if from.hit.dist < gap_max {
                let mut d: u8 = 0;
                while d < 4
                    invariant
                        d <= 4,
                        self.wf(),
                        st.wf(self@),
                        from.at < self@.len(),
                        from.hit.comp != 0,
                        from.hit.dist < gap_max,
                        st@ == self@.leave(popped, from, d as nat),
                        total_potential(st@.first, gap_max as int) + st@.queue.len()
                            <= total_potential(popped.first, gap_max as int) + popped.queue.len(),
                    decreases 4 - d,
                {
                    self.enter(&mut st, from, d, gap_max);
                    d = d + 1;
                }
            }
            proof {
                k = k + 1;
            }
        }
        proof {
            assert(self@.spread_ends(comp@, gap_max as int, st@));
        }
        (st.first, st.second)
    }
}

// -- Filling ---------------------------------------------------------------

/// Whether two hits come from opposite sides of pixel `i`: the directions to
/// their sources are at least a right angle apart.
pub open spec fn opposite(w: int, i: int, h1: Hit, h2: Hit) -> bool {
    let (dx1, dy1) = (h1.sx - i % w, h1.sy - i / w);
    let (dx2, dy2) = (h2.sx - i % w, h2.sy - i / w);
    ||| dx1 == 0 && dy1 == 0
    ||| dx2 == 0 && dy2 == 0
    ||| dx1 * dx2 + dy1 * dy2 <= 0
}

/// Whether empty pixel `i` bridges two bodies of water.
pub open spec fn bridges(
    f: Field,
    comp: Seq<u16>,
    win: Window,
    end: Spread,
    gap_max: int,
    i: int,
) -> bool {
    let (h1, h2) = (end.first[i], end.second[i]);
    &&& f.empty(i)
    &&& h1.comp != 0
    &&& h2.comp != 0
    &&& h1.comp != h2.comp
    &&& h1.dist + h2.dist <= gap_max
    &&& is_ocean(comp, win, f.w, h1.comp) || is_ocean(comp, win, f.w, h2.comp)
    &&& opposite(f.w, i, h1, h2)
}

/// A tile on the canvas: its corner, its size in pixels, and the color of its
/// water.
pub struct TileArea {
    pub x: int,
    pub y: int,
    pub size: int,
    pub water: u8,
}

impl TileArea {
    /// The position of pixel `i` of the tile on the canvas.
    pub open spec fn place(self, i: int) -> (int, int) {
        (self.x + i % self.size, self.y + i / self.size)
    }

    /// What the canvas shows in the tile.
    pub open spec fn field(self, g: Grid) -> Field {
        Field {
            w: self.size,
            h: self.size,
            mask: Seq::new(
                (self.size * self.size) as nat,
                |i: int|
                    {
                        let c = g.color_at(self.place(i).0, self.place(i).1);
                        if c == self.water {
                            1u8
                        } else if c != 0 {
                            2u8
                        } else {
                            0u8
                        }
                    },
            ),
        }
    }

    /// The canvas after the bridges among the first `n` pixels were filled.
    pub open spec fn fill_first(
        self,
        g: Grid,
        f: Field,
        comp: Seq<u16>,
        win: Window,
        end: Spread,
        gap_max: int,
        n: nat,
    ) -> Grid
        decreases n,
    {
        if n == 0 {
            g
        } else {
            let before = self.fill_first(g, f, comp, win, end, gap_max, (n - 1) as nat);
            let (x, y) = self.place(n - 1);
            if bridges(f, comp, win, end, gap_max, n - 1) && before.color_at(x, y) == 0 {
                before.set_pixel(x, y, self.water)
            } else {
                before
            }
        }
    }

    /// Whether `filled` is the canvas `g` after its bridges within the tile
    /// were filled. A tile with fewer than two bodies of water has none.
    pub open spec fn is_filled(self, g: Grid, gap_max: int, filled: Grid) -> bool {
        let f = self.field(g);
        if f.seeds_before(f.mask.len()) < 2 {
            filled == g
        } else {
            exists|comp: Seq<u16>, end: Spread| #[trigger]
                f.spread_ends(comp, gap_max, end) && labels_of(f, comp) && filled
                    == self.fill_first(
                    g,
                    f,
                    comp,
                    window_of(
                        self.size,
                        self.size,
                        self.x,
                        self.y,
                        g.width as int,
                        g.height as int,
                    ),
                    end,
                    gap_max,
                    f.mask.len(),
                )
        }
    }
}

/// Whether `comp` holds the labels of a field.
pub open spec fn labels_of(f: Field, comp: Seq<u16>) -> bool {
    &&& comp.len() == f.mask.len()
    &&& forall|i: int| 0 <= i < f.len() ==> #[trigger] f.labeled(i, comp[i] as int)
}

/// The fill of a tile is determined by what the canvas shows.
pub proof fn law_bridge_fill_is_deterministic(
    area: TileArea,
    g: Grid,
    gap_max: int,
    a: Grid,
    b: Grid,
)
    requires
        area.size > 0,
        area.is_filled(g, gap_max, a),
        area.is_filled(g, gap_max, b),
    ensures
        a == b,
{
    let f = area.field(g);
    if f.seeds_before(f.mask.len()) >= 2 {
        assert(area.size * area.size >= 0) by (nonlinear_arith);
        let win = window_of(area.size, area.size, area.x, area.y, g.width as int, g.height as int);
        let (c1, e1) = choose|comp: Seq<u16>, end: Spread| #[trigger]
            f.spread_ends(comp, gap_max, end) && labels_of(f, comp) && a == area.fill_first(
                g,
                f,
                comp,
                win,
                end,
                gap_max,
                f.mask.len(),
            );
        let (c2, e2) = choose|comp: Seq<u16>, end: Spread| #[trigger]
            f.spread_ends(comp, gap_max, end) && labels_of(f, comp) && b == area.fill_first(
                g,
                f,
                comp,
                win,
                end,
                gap_max,
                f.mask.len(),
            );
        assert forall|i: int| 0 <= i < c1.len() implies c1[i] == c2[i] by {
            assert(f.labeled(i, c1[i] as int));
            assert(f.labeled(i, c2[i] as int));
            law_labels_are_unique(f, i, c1[i] as int, c2[i] as int);
        }
        assert(c1 =~= c2);
        law_spreading_is_deterministic(f, c1, gap_max, e1, e2);
    }
}

/// A bridge fill puts out no pixel.
pub proof fn law_bridge_fill_only_adds(
    area: TileArea,
    g: Grid,
    f: Field,
    comp: Seq<u16>,
    win: Window,
    end: Spread,
    gap_max: int,
    n: nat,
    x: int,
    y: int,
)
    requires
        g.wf(),
        g.lit(x, y),
    ensures
        area.fill_first(g, f, comp, win, end, gap_max, n).wf(),
        area.fill_first(g, f, comp, win, end, gap_max, n).lit(x, y),
    decreases n,
{
    if n > 0 {
        law_bridge_fill_only_adds(area, g, f, comp, win, end, gap_max, (n - 1) as nat, x, y);
        let before = area.fill_first(g, f, comp, win, end, gap_max, (n - 1) as nat);
        let (px, py) = area.place(n - 1);
        crate::braille_buffer::law_set_pixel_lights_one(before, px, py, area.water, x, y);
    }
}

// -- What a fill does ------------------------------------------------------

/// The number of the pixel in column `lx` and row `ly` of a tile.
pub open spec fn pixel_number(size: int, lx: int, ly: int) -> int {
    ly * size + lx
}

proof fn lemma_pixel_number(size: int, lx: int, ly: int)
    requires
        0 <= lx < size,
        0 <= ly < size,
    ensures
        pixel_number(size, lx, ly) % size == lx,
        pixel_number(size, lx, ly) / size == ly,
        0 <= pixel_number(size, lx, ly) < size * size,
{
    let i = pixel_number(size, lx, ly);
    lemma_fundamental_div_mod_converse(i, size, ly, lx);
    assert(0 <= i < size * size) by (nonlinear_arith)
        requires
            i == ly * size + lx,
            0 <= lx < size,
            0 <= ly <= size - 1,
    ;
}

proof fn lemma_pixel_of_number(size: int, i: int)
    requires
        0 < size,
        0 <= i < size * size,
    ensures
        0 <= i % size < size,
        0 <= i / size < size,
        pixel_number(size, i % size, i / size) == i,
{
    lemma_fundamental_div_mod(i, size);
    lemma_mod_bound(i, size);
    lemma_div_pos_is_pos(i, size);
    assert(i / size < size) by (nonlinear_arith)
        requires
            i == size * (i / size) + i % size,
            0 <= i % size,
            i < size * size,
            size > 0,
    ;
    vstd::arithmetic::mul::lemma_mul_is_commutative(size, i / size);
}

/// Two pixels of a field are neighbours where one lies beside the other in its
/// row, or above or below it in its column.
pub proof fn law_neighbours_share_a_side(f: Field, a: int, b: int, c: int, d: int)
    requires
        f.wf(),
        0 <= a < f.w,
        0 <= c < f.w,
        0 <= b < f.h,
        0 <= d < f.h,
    ensures
        f.adjacent(b * f.w + a, d * f.w + c) <==> (b == d && (c == a + 1 || c == a - 1)) || (a == c
            && (d == b + 1 || d == b - 1)),
{
    let (i, j) = (b * f.w + a, d * f.w + c);
    lemma_fundamental_div_mod_converse(i, f.w, b, a);
    lemma_fundamental_div_mod_converse(j, f.w, d, c);
    assert(f.w * b == b * f.w && f.w * d == d * f.w) by (nonlinear_arith);
    assert((b + 1) * f.w == b * f.w + f.w && (b - 1) * f.w == b * f.w - f.w) by (nonlinear_arith);
    assert(0 <= i < f.len() && 0 <= j < f.len()) by (nonlinear_arith)
        requires
            f.len() == f.w * f.h,
            i == b * f.w + a,
            j == d * f.w + c,
            0 <= a < f.w,
            0 <= c < f.w,
            0 <= b <= f.h - 1,
            0 <= d <= f.h - 1,
    ;
    // A number decides on its row and column.
    if j == i + 1 && a + 1 < f.w {
        lemma_fundamental_div_mod_converse(j, f.w, b, a + 1);
    }
    if j == i - 1 && a > 0 {
        lemma_fundamental_div_mod_converse(j, f.w, b, a - 1);
    }
    if j == i + f.w {
        lemma_fundamental_div_mod_converse(j, f.w, b + 1, a);
    }
    if j == i - f.w {
        lemma_fundamental_div_mod_converse(j, f.w, b - 1, a);
    }
    if b == 0 {
        assert(b * f.w == 0) by (nonlinear_arith)
            requires
                b == 0,
        ;
    } else {
        assert(b * f.w >= f.w) by (nonlinear_arith)
            requires
                b >= 1,
                f.w > 0,
        ;
    }
    if b + 1 < f.h {
        assert((b + 1) * f.w + f.w <= f.w * f.h) by (nonlinear_arith)
            requires
                b + 2 <= f.h,
                f.w > 0,
        ;
    } else {
        assert((b + 1) * f.w == f.w * f.h) by (nonlinear_arith)
            requires
                b + 1 == f.h,
        ;
    }
    if a == c && d == b + 1 {
        assert(f.neighbor(i, 3) == j);
    } else if a == c && d == b - 1 {
        assert(f.neighbor(i, 2) == j);
    } else if b == d && c == a + 1 {
        assert(f.neighbor(i, 1) == j);
    } else if b == d && c == a - 1 {
        assert(f.neighbor(i, 0) == j);
    }
}

/// The field of a tile holds, for each of its pixels, whether the canvas shows
/// the color of water there, nothing, or something else.
pub proof fn law_fields_show_the_canvas(area: TileArea, g: Grid, lx: int, ly: int)
    requires
        0 <= lx < area.size,
        0 <= ly < area.size,
    ensures
        ({
            let f = area.field(g);
            let i = pixel_number(area.size, lx, ly);
            let c = g.color_at(area.x + lx, area.y + ly);
            &&& f.w == area.size
            &&& f.h == area.size
            &&& f.wf()
            &&& f.water(i) <==> c == area.water
            &&& f.empty(i) <==> c == 0 && area.water != 0
        }),
{
    lemma_pixel_number(area.size, lx, ly);
    assert(area.size * area.size >= 0) by (nonlinear_arith);
}

/// Whether a pixel of a tile lies on the edge of the part of the tile that lies
/// within the picture.
pub open spec fn edge_pixel(area: TileArea, g: Grid, lx: int, ly: int) -> bool {
    let (left, top) = (
        if area.x > 0 {
            area.x
        } else {
            0
        },
        if area.y > 0 {
            area.y
        } else {
            0
        },
    );
    let (right, bottom) = (
        if area.x + area.size < g.width {
            area.x + area.size
        } else {
            g.width as int
        },
        if area.y + area.size < g.height {
            area.y + area.size
        } else {
            g.height as int
        },
    );
    area.x + lx == left || area.x + lx + 1 == right || area.y + ly == top || area.y + ly + 1
        == bottom
}

/// Whether a body of water reaches the edge of the part of the tile that lies
/// within the picture.
pub open spec fn reaches_picture_edge(area: TileArea, g: Grid, comp: Seq<u16>, c: u16) -> bool {
    exists|lx: int, ly: int|
        0 <= lx < area.size && 0 <= ly < area.size && comp[#[trigger] pixel_number(
            area.size,
            lx,
            ly,
        )] == c && edge_pixel(area, g, lx, ly)
}

/// Whether a body of water covers a twentieth of the tile, rounded down.
pub open spec fn covers_a_twentieth(comp: Seq<u16>, c: u16) -> bool {
    20 * comp.to_multiset().count(c) > comp.len() - 20
}

/// Whether a body of water counts as an ocean.
pub open spec fn large_at_the_edge(area: TileArea, g: Grid, comp: Seq<u16>, c: u16) -> bool {
    reaches_picture_edge(area, g, comp, c) && covers_a_twentieth(comp, c)
}

proof fn lemma_label_size_is_count(comp: Seq<u16>, c: u16, n: nat)
    requires
        n <= comp.len(),
    ensures
        label_size(comp, c, n) == comp.take(n as int).to_multiset().count(c),
    decreases n,
{
    broadcast use vstd::seq_lib::group_to_multiset_ensures;

    if n > 0 {
        lemma_label_size_is_count(comp, c, (n - 1) as nat);
        assert(comp.take(n as int) =~= comp.take(n - 1).push(comp[n - 1]));
    } else {
        assert(comp.take(0) =~= Seq::<u16>::empty());
    }
}

proof fn lemma_oceans(area: TileArea, g: Grid, comp: Seq<u16>, c: u16)
    requires
        area.size > 0,
        comp.len() == area.size * area.size,
        -area.size < area.x < g.width,
        -area.size < area.y < g.height,
        c != 0,
    ensures
        is_ocean(
            comp,
            window_of(area.size, area.size, area.x, area.y, g.width as int, g.height as int),
            area.size,
            c,
        ) <==> large_at_the_edge(area, g, comp, c),
{
    let win = window_of(area.size, area.size, area.x, area.y, g.width as int, g.height as int);
    lemma_label_size_is_count(comp, c, comp.len());
    assert(comp.take(comp.len() as int) =~= comp);
    let n = comp.len() as int;
    if label_on_edge(comp, win, area.size, c, n) {
        let i = choose|i: int|
            0 <= i < n && #[trigger] comp[i] == c && on_edge(win, area.size, i);
        lemma_pixel_of_number(area.size, i);
        assert(comp[pixel_number(area.size, i % area.size, i / area.size)] == c);
    }
    if reaches_picture_edge(area, g, comp, c) {
        let (ax, ay) = choose|ax: int, ay: int|
            0 <= ax < area.size && 0 <= ay < area.size && comp[#[trigger] pixel_number(
                area.size,
                ax,
                ay,
            )] == c && edge_pixel(area, g, ax, ay);
        lemma_pixel_number(area.size, ax, ay);
        assert(on_edge(win, area.size, pixel_number(area.size, ax, ay)));
    }
}

/// Setting a pixel gives it the color, and gives others the color or leaves
/// them.
proof fn lemma_set_pixel_colors(g: Grid, x: int, y: int, color: u8, a: int, b: int)
    requires
        g.wf(),
    ensures
        ({
            let after = g.set_pixel(x, y, color);
            &&& after.wf()
            &&& after.width == g.width
            &&& after.height == g.height
            &&& after.color_at(a, b) == g.color_at(a, b) || after.color_at(a, b) == color
            &&& a == x && b == y && g.contains(x, y) ==> after.color_at(a, b) == color
            &&& after.lit(a, b) == (g.lit(a, b) || (a == x && b == y && g.contains(x, y)))
        }),
{
    crate::braille_buffer::law_set_pixel_lights_one(g, x, y, color, a, b);
    if g.contains(x, y) && g.contains(a, b) && !(a == x && b == y) {
        crate::braille_buffer::law_pixels_have_places_of_their_own(g, x, y, a, b);
        crate::braille_buffer::law_pixels_have_places_of_their_own(g, a, b, x, y);
    }
}

proof fn lemma_fill_first(
    area: TileArea,
    g: Grid,
    f: Field,
    comp: Seq<u16>,
    win: Window,
    end: Spread,
    gap_max: int,
    n: nat,
    x: int,
    y: int,
)
    requires
        g.wf(),
    ensures
        ({
            let after = area.fill_first(g, f, comp, win, end, gap_max, n);
            &&& after.wf()
            &&& after.width == g.width
            &&& after.height == g.height
            &&& after.color_at(x, y) == g.color_at(x, y) || after.color_at(x, y) == area.water
            &&& g.lit(x, y) ==> after.lit(x, y)
            &&& after.lit(x, y) && !g.lit(x, y) ==> exists|i: int|
                0 <= i < n && area.place(i) == (x, y) && #[trigger] bridges(
                    f,
                    comp,
                    win,
                    end,
                    gap_max,
                    i,
                )
            &&& g.contains(x, y) && g.color_at(x, y) == 0 && area.water != 0 && (exists|i: int|
                0 <= i < n && area.place(i) == (x, y) && #[trigger] bridges(
                    f,
                    comp,
                    win,
                    end,
                    gap_max,
                    i,
                )) ==> after.color_at(x, y) == area.water
        }),
    decreases n,
{
    if n > 0 {
        let m = (n - 1) as nat;
        lemma_fill_first(area, g, f, comp, win, end, gap_max, m, x, y);
        let before = area.fill_first(g, f, comp, win, end, gap_max, m);
        let (px, py) = area.place(n - 1);
        lemma_set_pixel_colors(before, px, py, area.water, x, y);
        lemma_fill_first(area, g, f, comp, win, end, gap_max, m, px, py);
    }
}

/// Where a field has two bodies of water, they have two first pixels.
proof fn lemma_two_seeds(f: Field, comp: Seq<u16>, a: int, b: int)
    requires
        f.wf(),
        labels_of(f, comp),
        f.water(a),
        f.water(b),
        !f.connected(a, b),
    ensures
        f.seeds_before(f.mask.len()) >= 2,
{
    assert(f.labeled(a, comp[a] as int));
    assert(f.labeled(b, comp[b] as int));
    let s = choose|s: int|
        #![trigger f.is_seed(s)]
        f.is_seed(s) && f.connected(s, a) && comp[a] == label_number(
            f.seeds_before((s + 1) as nat),
        );
    let t = choose|t: int|
        #![trigger f.is_seed(t)]
        f.is_seed(t) && f.connected(t, b) && comp[b] == label_number(
            f.seeds_before((t + 1) as nat),
        );
    if s == t {
        lemma_connected_symmetric(f, s, a);
        lemma_connected_transitive(f, a, s, b);
    }
    let (low, high) = if s < t {
        (s, t)
    } else {
        (t, s)
    };
    lemma_seeds_grow(f, (low + 1) as nat, high as nat);
    lemma_seeds_grow(f, (high + 1) as nat, f.mask.len());
    lemma_seeds_grow(f, 0, low as nat);
}

proof fn lemma_seeds_grow(f: Field, m: nat, n: nat)
    requires
        m <= n,
    ensures
        f.seeds_before(m) <= f.seeds_before(n),
    decreases n,
{
    if m < n {
        lemma_seeds_grow(f, m, (n - 1) as nat);
    }
}

/// An empty pixel becomes water where the two bodies of water that were noted
/// for it are distinct, one of them is large and reaches the edge of the picture,
/// their distances add up to no more than the gap may be wide, and the directions
/// to them are at least a right angle apart, whichever way the gap runs.
pub proof fn law_gaps_are_filled_in_every_direction(
    area: TileArea,
    g: Grid,
    gap_max: int,
    filled: Grid,
    comp: Seq<u16>,
    end: Spread,
    lx: int,
    ly: int,
    a: int,
    b: int,
)
    requires
        g.wf(),
        area.is_filled(g, gap_max, filled),
        labels_of(area.field(g), comp),
        area.field(g).spread_ends(comp, gap_max, end),
        area.field(g).water(a),
        area.field(g).water(b),
        !area.field(g).connected(a, b),
        0 <= lx < area.size,
        0 <= ly < area.size,
        0 <= area.x + lx < g.width,
        0 <= area.y + ly < g.height,
    ensures
        ({
            let (x, y) = (area.x + lx, area.y + ly);
            let h1 = end.first[pixel_number(area.size, lx, ly)];
            let h2 = end.second[pixel_number(area.size, lx, ly)];
            &&& g.color_at(x, y) == 0 && area.water != 0 && h1.comp != 0 && h2.comp != 0 && h1.comp
                != h2.comp && h1.dist + h2.dist <= gap_max && (large_at_the_edge(
                area,
                g,
                comp,
                h1.comp,
            ) || large_at_the_edge(area, g, comp, h2.comp)) && (h1.sx - lx) * (h2.sx - lx) + (h1.sy
                - ly) * (h2.sy - ly) <= 0 ==> filled.color_at(x, y) == area.water && filled.lit(
                x,
                y,
            )
        }),
{
    let (f, i) = lemma_fill_is_of(area, g, gap_max, filled, comp, end, lx, ly, a, b);
    let (h1, h2) = (end.first[i], end.second[i]);
    if h1.comp != 0 && h2.comp != 0 {
        lemma_oceans(area, g, comp, h1.comp);
        lemma_oceans(area, g, comp, h2.comp);
        law_fields_show_the_canvas(area, g, lx, ly);
        let win = window_of(area.size, area.size, area.x, area.y, g.width as int, g.height as int);
        if g.color_at(area.x + lx, area.y + ly) == 0 && area.water != 0 && h1.comp != h2.comp
            && h1.dist + h2.dist <= gap_max && (large_at_the_edge(area, g, comp, h1.comp)
            || large_at_the_edge(area, g, comp, h2.comp)) && (h1.sx - lx) * (h2.sx - lx) + (h1.sy
            - ly) * (h2.sy - ly) <= 0 {
            assert(bridges(f, comp, win, end, gap_max, i));
        }
    }
}

/// No other pixel is lit by a fill: what it lights was empty, lies within the
/// tile, and closes such a gap.
pub proof fn law_only_gaps_are_filled(
    area: TileArea,
    g: Grid,
    gap_max: int,
    filled: Grid,
    comp: Seq<u16>,
    end: Spread,
    x: int,
    y: int,
    a: int,
    b: int,
)
    requires
        g.wf(),
        area.size > 0,
        area.is_filled(g, gap_max, filled),
        labels_of(area.field(g), comp),
        area.field(g).spread_ends(comp, gap_max, end),
        area.field(g).water(a),
        area.field(g).water(b),
        !area.field(g).connected(a, b),
        filled.lit(x, y),
        !g.lit(x, y),
    ensures
        ({
            let (lx, ly) = (x - area.x, y - area.y);
            let h1 = end.first[pixel_number(area.size, lx, ly)];
            let h2 = end.second[pixel_number(area.size, lx, ly)];
            &&& 0 <= lx < area.size
            &&& 0 <= ly < area.size
            &&& filled.color_at(x, y) == area.water
            &&& h1.comp != 0
            &&& h2.comp != 0
            &&& h1.comp != h2.comp
            &&& h1.dist + h2.dist <= gap_max
            &&& large_at_the_edge(area, g, comp, h1.comp) || large_at_the_edge(
                area,
                g,
                comp,
                h2.comp,
            )
            &&& (h1.sx - lx) * (h2.sx - lx) + (h1.sy - ly) * (h2.sy - ly) <= 0
        }),
{
    let f = area.field(g);
    assert(area.size * area.size >= 0) by (nonlinear_arith);
    lemma_two_seeds(f, comp, a, b);
    let win = window_of(area.size, area.size, area.x, area.y, g.width as int, g.height as int);
    let made = area.fill_first(g, f, comp, win, end, gap_max, f.mask.len());
    assert(f.spread_ends(comp, gap_max, end));
    assert(area.is_filled(g, gap_max, made));
    law_bridge_fill_is_deterministic(area, g, gap_max, filled, made);
    lemma_fill_first(area, g, f, comp, win, end, gap_max, f.mask.len(), x, y);
    let i = choose|i: int|
        0 <= i < f.mask.len() && area.place(i) == (x, y) && #[trigger] bridges(
            f,
            comp,
            win,
            end,
            gap_max,
            i,
        );
    lemma_pixel_of_number(area.size, i);
    let (h1, h2) = (end.first[i], end.second[i]);
    lemma_oceans(area, g, comp, h1.comp);
    lemma_oceans(area, g, comp, h2.comp);
    let (lx, ly) = (i % area.size, i / area.size);
    law_fields_show_the_canvas(area, g, lx, ly);
    if (h1.sx == lx && h1.sy == ly) || (h2.sx == lx && h2.sy == ly) {
        assert((h1.sx - lx) * (h2.sx - lx) + (h1.sy - ly) * (h2.sy - ly) == 0) by (nonlinear_arith)
            requires
                (h1.sx == lx && h1.sy == ly) || (h2.sx == lx && h2.sy == ly),
        ;
    }
}

/// A tile with a single body of water, or none, is left as it is.
pub proof fn law_a_single_body_is_left_alone(area: TileArea, g: Grid, gap_max: int, filled: Grid)
    requires
        area.size > 0,
        area.is_filled(g, gap_max, filled),
        forall|a: int, b: int|
            area.field(g).water(a) && area.field(g).water(b) ==> #[trigger] area.field(g).connected(
                a,
                b,
            ),
    ensures
        filled == g,
{
    let f = area.field(g);
    assert(area.size * area.size >= 0) by (nonlinear_arith);
    lemma_one_seed(f, f.mask.len());
}

proof fn lemma_one_seed(f: Field, n: nat)
    requires
        n <= f.mask.len(),
        forall|a: int, b: int| f.water(a) && f.water(b) ==> #[trigger] f.connected(a, b),
    ensures
        f.seeds_before(n) <= 1,
        f.seeds_before(n) == 1 ==> exists|i: int| 0 <= i < n && #[trigger] f.water(i),
    decreases n,
{
    if n > 0 {
        lemma_one_seed(f, (n - 1) as nat);
        if f.is_seed(n - 1) {
            assert(f.water(n - 1));
            if f.seeds_before((n - 1) as nat) == 1 {
                let i = choose|i: int| 0 <= i < n - 1 && #[trigger] f.water(i);
                assert(f.connected(n - 1, i));
            }
        }
    }
}

proof fn lemma_fill_is_of(
    area: TileArea,
    g: Grid,
    gap_max: int,
    filled: Grid,
    comp: Seq<u16>,
    end: Spread,
    lx: int,
    ly: int,
    a: int,
    b: int,
) -> (r: (Field, int))
    requires
        g.wf(),
        area.is_filled(g, gap_max, filled),
        labels_of(area.field(g), comp),
        area.field(g).spread_ends(comp, gap_max, end),
        area.field(g).water(a),
        area.field(g).water(b),
        !area.field(g).connected(a, b),
        0 <= lx < area.size,
        0 <= ly < area.size,
        0 <= area.x + lx < g.width,
        0 <= area.y + ly < g.height,
    ensures
        r.0 == area.field(g),
        r.1 == pixel_number(area.size, lx, ly),
        r.1 % area.size == lx,
        r.1 / area.size == ly,
        comp.len() == area.size * area.size,
        ({
            let win = window_of(
                area.size,
                area.size,
                area.x,
                area.y,
                g.width as int,
                g.height as int,
            );
            bridges(r.0, comp, win, end, gap_max, r.1) && g.color_at(area.x + lx, area.y + ly) == 0
                && area.water != 0 ==> filled.color_at(area.x + lx, area.y + ly) == area.water
                && filled.lit(area.x + lx, area.y + ly)
        }),
{
    let f = area.field(g);
    let i = pixel_number(area.size, lx, ly);
    assert(area.size * area.size >= 0) by (nonlinear_arith);
    lemma_pixel_number(area.size, lx, ly);
    lemma_two_seeds(f, comp, a, b);
    let win = window_of(area.size, area.size, area.x, area.y, g.width as int, g.height as int);
    let made = area.fill_first(g, f, comp, win, end, gap_max, f.mask.len());
    assert(area.is_filled(g, gap_max, made));
    law_bridge_fill_is_deterministic(area, g, gap_max, filled, made);
    lemma_fill_first(
        area,
        g,
        f,
        comp,
        win,
        end,
        gap_max,
        f.mask.len(),
        area.x + lx,
        area.y + ly,
    );
    (f, i)
}

/// A hit in the picture with rows and columns exchanged.
pub open spec fn mirrored(h: Hit) -> Hit {
    Hit { sx: h.sy, sy: h.sx, ..h }
}

/// Whether two hits come from opposite sides does not change where rows and
/// columns are exchanged; sources straight above and below a pixel, or left and
/// right of it, are on opposite sides, and sources in one quarter are not.
pub proof fn law_sides_do_not_depend_on_the_axes(
    size: int,
    lx: int,
    ly: int,
    h1: Hit,
    h2: Hit,
)
    requires
        0 <= lx < size,
        0 <= ly < size,
    ensures
        opposite(size, pixel_number(size, lx, ly), h1, h2) == opposite(
            size,
            pixel_number(size, ly, lx),
            mirrored(h1),
            mirrored(h2),
        ),
        opposite(size, pixel_number(size, lx, ly), h1, h2) == opposite(
            size,
            pixel_number(size, lx, ly),
            h2,
            h1,
        ),
        h1.sx == lx && h2.sx == lx && h1.sy < ly < h2.sy ==> opposite(
            size,
            pixel_number(size, lx, ly),
            h1,
            h2,
        ),
        h1.sy == ly && h2.sy == ly && h1.sx < lx < h2.sx ==> opposite(
            size,
            pixel_number(size, lx, ly),
            h1,
            h2,
        ),
        h1.sx < lx && h2.sx < lx && h1.sy <= ly && h2.sy <= ly ==> !opposite(
            size,
            pixel_number(size, lx, ly),
            h1,
            h2,
        ),
{
    lemma_pixel_number(size, lx, ly);
    lemma_pixel_number(size, ly, lx);
    let (dx1, dy1, dx2, dy2) = (h1.sx - lx, h1.sy - ly, h2.sx - lx, h2.sy - ly);
    assert(dx1 * dx2 == dx2 * dx1 && dy1 * dy2 == dy2 * dy1) by (nonlinear_arith);
    if dx1 == 0 && dx2 == 0 && dy1 < 0 && dy2 > 0 {
        assert(dx1 * dx2 + dy1 * dy2 <= 0) by (nonlinear_arith)
            requires
                dx1 == 0,
                dy1 < 0,
                dy2 > 0,
        ;
    }
    if dy1 == 0 && dy2 == 0 && dx1 < 0 && dx2 > 0 {
        assert(dx1 * dx2 + dy1 * dy2 <= 0) by (nonlinear_arith)
            requires
                dy1 == 0,
                dx1 < 0,
                dx2 > 0,
        ;
    }
    if dx1 < 0 && dx2 < 0 && dy1 <= 0 && dy2 <= 0 {
        assert(dx1 * dx2 + dy1 * dy2 > 0) by (nonlinear_arith)
            requires
                dx1 < 0,
                dx2 < 0,
                dy1 <= 0,
                dy2 <= 0,
        ;
    }
}

/// Pixels of different bodies of water carry different labels, as far as labels
/// go, and only water carries one.
pub proof fn law_bodies_have_labels_of_their_own(f: Field, i: int, j: int, c: int, d: int)
    requires
        f.wf(),
        f.labeled(i, c),
        f.labeled(j, d),
        f.seeds_before(f.mask.len()) < 65535,
    ensures
        c != 0 <==> f.water(i),
        f.water(i) && f.water(j) ==> (c == d <==> f.connected(i, j)),
{
    if f.water(i) {
        lemma_water_label_positive(f, i, c);
    }
    if f.water(i) && f.water(j) {
        let s = choose|s: int|
            #![trigger f.is_seed(s)]
            f.is_seed(s) && f.connected(s, i) && c == label_number(f.seeds_before((s + 1) as nat));
        let t = choose|t: int|
            #![trigger f.is_seed(t)]
            f.is_seed(t) && f.connected(t, j) && d == label_number(f.seeds_before((t + 1) as nat));
        if f.connected(i, j) {
            law_connected_pixels_share_a_label(f, i, j, c);
            law_labels_are_unique(f, j, c, d);
        } else {
            if s == t {
                lemma_connected_symmetric(f, s, i);
                lemma_connected_transitive(f, i, s, j);
            }
            let (low, high) = if s < t {
                (s, t)
            } else {
                (t, s)
            };
            lemma_seeds_grow(f, (low + 1) as nat, high as nat);
            lemma_seeds_grow(f, (high + 1) as nat, f.mask.len());
        }
    }
}

/// The spreading starts from every pixel of water that has an empty neighbour.
pub proof fn law_shores_are_beside_empty_pixels(f: Field, i: int)
    ensures
        f.is_shore(i) <==> f.water(i) && exists|j: int| #[trigger]
            f.adjacent(i, j) && f.empty(j),
{
    if f.is_shore(i) {
        let d: int = if f.empty(f.neighbor(i, 0)) {
            0
        } else if f.empty(f.neighbor(i, 1)) {
            1
        } else if f.empty(f.neighbor(i, 2)) {
            2
        } else {
            3
        };
        assert(f.adjacent(i, f.neighbor(i, d)) && f.empty(f.neighbor(i, d)));
    }
}

impl Canvas {
    fn color_at(&self, x: i64, y: i64) -> (r: ColorIdx)
        requires
            self.wf(),
        ensures
            r == self@.color_at(x as int, y as int),
    {
        if 0 <= x && x < self.width as i64 && 0 <= y && y < self.height as i64 {
            self.buffer.get_pixel_color(x as i32, y as i32)
        } else {
            0
        }
    }

    fn read_pixels(&self, x: i32, y: i32, size: usize, water: ColorIdx) -> (r: Pixels)
        requires
            self.wf(),
            0 < size <= 0xffff,
        ensures
            r.wf(),
            r@ == (TileArea { x: x as int, y: y as int, size: size as int, water }).field(self@),
            r.w == size,
            r.h == size,
    {
        let ghost area = TileArea { x: x as int, y: y as int, size: size as int, water };
        let ghost mask = area.field(self@).mask;
        proof {
            assert(size * size <= 0xffff * 0xffff) by (nonlinear_arith)
                requires
                    size <= 0xffff,
            ;
            assert(size * size > 0) by (nonlinear_arith)
                requires
                    size > 0,
            ;
        }
        let n: usize = size * size;
        let mut out: Vec<u8> = Vec::new();
        let mut i: usize = 0;
        while i < n
            invariant
                self.wf(),
                0 < size <= 0xffff,
                n == size * size,
                i <= n,
                n <= 0xffff * 0xffff,
                area == (TileArea { x: x as int, y: y as int, size: size as int, water }),
                mask == area.field(self@).mask,
                out@.len() == i,
                forall|k: int| 0 <= k < i ==> #[trigger] out@[k] == mask[k],
            decreases n - i,
        {
            let c: u8 = self.color_at(x as i64 + (i % size) as i64, y as i64 + (i / size) as i64);
            let m: u8 = if c == water {
                1
            } else if c != 0 {
                2
            } else {
                0
            };
            out.push(m);
            i = i + 1;
        }
        assert(out@ =~= mask);
        Pixels { w: size, h: size, mask: out }
    }

    /// Fill the narrow gaps between the bodies of water of a tile whose corner
    /// is at `(x, y)` and that is `size` pixels wide and high.
    pub fn bridge_fill(&mut self, x: i32, y: i32, size: usize, water: ColorIdx, gap_max: u16)
        requires
            old(self).wf(),
            0 < size <= 0xffff,
            gap_max <= 32,
        ensures
            final(self).wf(),
            (TileArea { x: x as int, y: y as int, size: size as int, water }).is_filled(
                old(self)@,
                gap_max as int,
                final(self)@,
            ),
            final(self).width == old(self).width,
            final(self).height == old(self).height,
    {
        let ghost area = TileArea { x: x as int, y: y as int, size: size as int, water };
        let ghost g = self@;
        let pixels: Pixels = self.read_pixels(x, y, size, water);
        let (comp, next): (Vec<u16>, u16) = pixels.label_components();
        if next <= 2 {
            return;
        }
        let part: VisiblePart = VisiblePart::new(size, size, x, y, self.width, self.height);
        let oceans: Vec<bool> = pixels.find_oceans(&comp, &part);
        let (first, second): (Vec<Hit>, Vec<Hit>) = pixels.spread(&comp, gap_max);
        let ghost f = pixels@;
        let ghost win = part.window();
        let ghost end = choose|end: Spread| #[trigger]
            f.spread_ends(comp@, gap_max as int, end) && end.first == first@ && end.second
                == second@;
        let n: usize = pixels.mask.len();
        let mut i: usize = 0;
        while i < n
            invariant
                self.wf(),
                self.width == old(self).width,
                self.height == old(self).height,
                0 < size <= 0xffff,
                gap_max <= 32,
                i <= n,
                n == f.len(),
                f == pixels@,
                f.wf(),
                f.w == size,
                f.h == size,
                area == (TileArea { x: x as int, y: y as int, size: size as int, water }),
                first@.len() == n,
                second@.len() == n,
                end.first == first@,
                end.second == second@,
                oceans@.len() == 65536,
                forall|c: u16| #[trigger]
                    oceans@[c as int] == is_ocean(comp@, win, size as int, c),
                self@ == area.fill_first(g, f, comp@, win, end, gap_max as int, i as nat),
            decreases n - i,
        {
            let h1: Hit = first[i];
            let h2: Hit = second[i];
            proof {
                lemma_row_below_height(f, i as int);
            }
            let (lx, ly): (i64, i64) = ((i % size) as i64, (i / size) as i64);
            if pixels.mask[i] == 0 && h1.comp != 0 && h2.comp != 0 && h1.comp != h2.comp
                && h1.dist as u32 + h2.dist as u32 <= gap_max as u32 && (oceans[h1.comp as usize]
                || oceans[h2.comp as usize]) && is_opposite(lx, ly, &h1, &h2) {
                let (px, py): (i64, i64) = (x as i64 + lx, y as i64 + ly);
                if self.color_at(px, py) == 0 {
                    self.mark(px as i128, py as i128, water, false);
                }
            }
            i = i + 1;
        }
    }
}

fn is_opposite(lx: i64, ly: i64, h1: &Hit, h2: &Hit) -> (r: bool)
    requires
        0 <= lx <= 0xffff,
        0 <= ly <= 0xffff,
    ensures
        r == ({
            let (dx1, dy1) = (h1.sx - lx, h1.sy - ly);
            let (dx2, dy2) = (h2.sx - lx, h2.sy - ly);
            ||| dx1 == 0 && dy1 == 0
            ||| dx2 == 0 && dy2 == 0
            ||| dx1 * dx2 + dy1 * dy2 <= 0
        }),
{
    let (dx1, dy1): (i64, i64) = (h1.sx as i64 - lx, h1.sy as i64 - ly);
    let (dx2, dy2): (i64, i64) = (h2.sx as i64 - lx, h2.sy as i64 - ly);
    proof {
        assert(-0xffff * 0xffff <= dx1 * dx2 <= 0xffff * 0xffff) by (nonlinear_arith)
            requires
                -0xffff <= dx1 <= 0xffff,
                -0xffff <= dx2 <= 0xffff,
        ;
        assert(-0xffff * 0xffff <= dy1 * dy2 <= 0xffff * 0xffff) by (nonlinear_arith)
            requires
                -0xffff <= dy1 <= 0xffff,
                -0xffff <= dy2 <= 0xffff,
        ;
    }
    (dx1 == 0 && dy1 == 0) || (dx2 == 0 && dy2 == 0) || dx1 * dx2 + dy1 * dy2 <= 0
}

} // verus!
