use vstd::prelude::*;
use vstd::seq_lib::seq_to_set_is_finite;
use vstd::set_lib::{lemma_set_disjoint_lens, lemma_len_subset};
use crate::midpoint::Midpoint;

verus! {

/// A point: an ordered pair of coordinates.
pub type Point<T> = (T, T);

/// An axis-aligned rectangle `(x_min, x_max, y_min, y_max)` with half-open
/// containment: the minimum edges are inclusive, the maximum edges exclusive.
pub type Boundary<T> = (T, T, T, T);

/// Half-open containment: `p` lies in `b` exactly when
/// `x_min <= x < x_max` and `y_min <= y < y_max`.
pub open spec fn spec_contains<T: Midpoint>(b: Boundary<T>, p: Point<T>) -> bool {
    b.0.le_spec(p.0) && !b.1.le_spec(p.0) && b.2.le_spec(p.1) && !b.3.le_spec(p.1)
}

/// Open-interval intersection: `a` and `b` intersect exactly when each one's
/// minimum is strictly below the other's maximum on both axes.
pub open spec fn spec_intersects<T: Midpoint>(a: Boundary<T>, b: Boundary<T>) -> bool {
    !b.1.le_spec(a.0) && !a.1.le_spec(b.0) && !b.3.le_spec(a.2) && !a.3.le_spec(b.2)
}

/// The four quadrants of a region, split at the midpoint of each axis, in the
/// fixed order top-left, bottom-left, top-right, bottom-right.
pub open spec fn quadrants<T: Midpoint>(b: Boundary<T>) -> (Boundary<T>, Boundary<T>, Boundary<T>, Boundary<T>) {
    let mx = T::spec_midpoint(b.0, b.1);
    let my = T::spec_midpoint(b.2, b.3);
    ((b.0, mx, b.2, my), (b.0, mx, my, b.3), (mx, b.1, b.2, my), (mx, b.1, my, b.3))
}

/// The extent of a region: the summed widths of its two axis intervals.
/// Splitting strictly shrinks it, which bounds the depth of the tree.
pub open spec fn region_measure<T: Midpoint>(b: Boundary<T>) -> nat {
    T::width(b.0, b.1) + T::width(b.2, b.3)
}

/// What one insertion does to the stored point set: a point inside the root
/// boundary is added (a no-op if already present), one outside is rejected.
pub open spec fn insert_model<T: Midpoint>(s: Set<Point<T>>, b: Boundary<T>, p: Point<T>) -> Set<Point<T>> {
    if spec_contains(b, p) {
        s.insert(p)
    } else {
        s
    }
}

/// The points of `s` that lie inside the query boundary `q`: what a range
/// query over a stored point set `s` must return.
pub open spec fn range_points<T: Midpoint>(s: Set<Point<T>>, q: Boundary<T>) -> Set<Point<T>> {
    s.filter(|p: Point<T>| spec_contains(q, p))
}

/// Insert monotonicity: one insertion grows the stored point set by exactly
/// one when the point is new and inside the boundary, and leaves the set
/// unchanged when the point is already stored or lies outside the boundary.
pub proof fn lemma_insert_model_size<T: Midpoint>(s: Set<Point<T>>, b: Boundary<T>, p: Point<T>)
    requires
        s.finite(),
    ensures
        spec_contains(b, p) && !s.contains(p) ==> insert_model(s, b, p).len() == s.len() + 1,
        s.contains(p) ==> insert_model(s, b, p) == s,
        !spec_contains(b, p) ==> insert_model(s, b, p) == s,
{
    if s.contains(p) {
        assert(s.insert(p) =~= s);
    }
}

/// The stored point set after a whole run of insertions, applied in order.
pub open spec fn insert_all_model<T: Midpoint>(
    s: Set<Point<T>>,
    b: Boundary<T>,
    ps: Seq<Point<T>>,
) -> Set<Point<T>>
    decreases ps.len(),
{
    if ps.len() == 0 {
        s
    } else {
        insert_model(insert_all_model(s, b, ps.drop_last()), b, ps.last())
    }
}

/// What a run of insertions stores: exactly the prior points plus those
/// points of the run that lie inside the boundary — out-of-bounds points
/// contribute nothing, and repeats collapse.
pub proof fn lemma_insert_all_model_pts<T: Midpoint>(
    s: Set<Point<T>>,
    b: Boundary<T>,
    ps: Seq<Point<T>>,
)
    ensures
        insert_all_model(s, b, ps) == s + range_points(ps.to_set(), b),
    decreases ps.len(),
{
    if ps.len() == 0 {
        assert(ps.to_set() =~= Set::<Point<T>>::empty());
        assert(insert_all_model(s, b, ps) =~= s + range_points(ps.to_set(), b));
    } else {
        let pre = ps.drop_last();
        lemma_insert_all_model_pts(s, b, pre);
        assert(ps.to_set() =~= pre.to_set().insert(ps.last())) by {
            assert forall|x: Point<T>| #[trigger] ps.to_set().contains(x) implies pre.to_set().insert(
                ps.last(),
            ).contains(x) by {
                let k = choose|k: int| 0 <= k < ps.len() && ps[k] == x;
                if k < ps.len() - 1 {
                    assert(pre[k] == x);
                    assert(pre.contains(x));
                }
            };
            assert forall|x: Point<T>| #[trigger] pre.to_set().insert(ps.last()).contains(
                x,
            ) implies ps.to_set().contains(x) by {
                if pre.to_set().contains(x) {
                    let k = choose|k: int| 0 <= k < pre.len() && pre[k] == x;
                    assert(ps[k] == x);
                } else {
                    assert(ps[ps.len() - 1] == x);
                }
            };
        };
        if spec_contains(b, ps.last()) {
            assert(range_points(ps.to_set(), b) =~= range_points(pre.to_set(), b).insert(
                ps.last(),
            ));
        } else {
            assert(range_points(ps.to_set(), b) =~= range_points(pre.to_set(), b));
        }
        assert(insert_all_model(s, b, ps) =~= s + range_points(ps.to_set(), b));
    }
}

/// Insert monotonicity over a whole run: inserting a sequence of distinct
/// points, all inside the boundary and none already stored, grows the
/// stored set by exactly the run's length — so from an empty tree, the size
/// after N such insertions is N.
pub proof fn lemma_insert_all_model_size<T: Midpoint>(
    s: Set<Point<T>>,
    b: Boundary<T>,
    ps: Seq<Point<T>>,
)
    requires
        s.finite(),
        ps.no_duplicates(),
        forall|i: int| 0 <= i < ps.len() ==> spec_contains(b, #[trigger] ps[i]),
        forall|i: int| 0 <= i < ps.len() ==> !s.contains(#[trigger] ps[i]),
    ensures
        insert_all_model(s, b, ps).finite(),
        insert_all_model(s, b, ps).len() == s.len() + ps.len(),
{
    lemma_insert_all_model_pts(s, b, ps);
    seq_to_set_is_finite::<Point<T>>(ps);
    ps.unique_seq_to_set();
    assert(range_points(ps.to_set(), b) =~= ps.to_set()) by {
        assert forall|x: Point<T>| #[trigger] ps.to_set().contains(x) implies spec_contains(
            b,
            x,
        ) by {
            let k = choose|k: int| 0 <= k < ps.len() && ps[k] == x;
            assert(spec_contains(b, ps[k]));
        };
    };
    assert(s.disjoint(ps.to_set())) by {
        assert forall|x: Point<T>| #[trigger] ps.to_set().contains(x) implies !s.contains(x) by {
            let k = choose|k: int| 0 <= k < ps.len() && ps[k] == x;
            assert(!s.contains(ps[k]));
        };
    };
    lemma_set_disjoint_lens(s, ps.to_set());
}

/// Capacity invariance: what a range query returns is a function of the
/// stored point set and the query boundary alone, so two trees holding the
/// same points answer every query identically, whatever their capacities
/// and shapes.
pub proof fn lemma_search_capacity_invariant<T: Midpoint>(
    t1: QuadTree<T>,
    t2: QuadTree<T>,
    q: Boundary<T>,
)
    requires
        t1.pts() == t2.pts(),
    ensures
        t1.search_model(q) == t2.search_model(q),
{
}

/// Search filtering and equivalence to a direct scan: the result set of a
/// range query holds exactly the stored points that the query boundary
/// contains — no point outside the boundary, and no point not stored.
pub proof fn lemma_range_points_filter<T: Midpoint>(s: Set<Point<T>>, q: Boundary<T>)
    ensures
        forall|p: Point<T>|
            #[trigger] range_points(s, q).contains(p) <==> s.contains(p) && spec_contains(q, p),
{
}

/// A point of a region lies in exactly one of the region's four quadrants.
pub proof fn lemma_quadrants_partition<T: Midpoint>(b: Boundary<T>, p: Point<T>)
    requires
        spec_contains(b, p),
    ensures
        spec_contains(quadrants(b).0, p) || spec_contains(quadrants(b).1, p)
            || spec_contains(quadrants(b).2, p) || spec_contains(quadrants(b).3, p),
        !(spec_contains(quadrants(b).0, p) && spec_contains(quadrants(b).1, p)),
        !(spec_contains(quadrants(b).0, p) && spec_contains(quadrants(b).2, p)),
        !(spec_contains(quadrants(b).0, p) && spec_contains(quadrants(b).3, p)),
        !(spec_contains(quadrants(b).1, p) && spec_contains(quadrants(b).2, p)),
        !(spec_contains(quadrants(b).1, p) && spec_contains(quadrants(b).3, p)),
        !(spec_contains(quadrants(b).2, p) && spec_contains(quadrants(b).3, p)),
{
    let mx = T::spec_midpoint(b.0, b.1);
    let my = T::spec_midpoint(b.2, b.3);
    T::le_total(mx, p.0);
    T::le_total(my, p.1);
}

/// When a region's axis intervals are ordered, each quadrant lies within the
/// region.
pub proof fn lemma_quadrant_in_region<T: Midpoint>(b: Boundary<T>, p: Point<T>)
    requires
        b.0.le_spec(b.1),
        b.2.le_spec(b.3),
        spec_contains(quadrants(b).0, p) || spec_contains(quadrants(b).1, p)
            || spec_contains(quadrants(b).2, p) || spec_contains(quadrants(b).3, p),
    ensures
        spec_contains(b, p),
{
    let mx = T::spec_midpoint(b.0, b.1);
    let my = T::spec_midpoint(b.2, b.3);
    T::mid_bounds(b.0, b.1);
    T::mid_bounds(b.2, b.3);
    // x axis: either b.0 <= p.0 < mx or mx <= p.0 < b.1; both give b.0 <= p.0 < b.1.
    if !mx.le_spec(p.0) {
        if b.1.le_spec(p.0) {
            T::le_trans(mx, b.1, p.0);
            assert(false);
        }
    } else {
        T::le_trans(b.0, mx, p.0);
    }
    if !my.le_spec(p.1) {
        if b.3.le_spec(p.1) {
            T::le_trans(my, b.3, p.1);
            assert(false);
        }
    } else {
        T::le_trans(b.2, my, p.1);
    }
}

/// When a region's axis intervals are ordered, no quadrant is larger than the
/// region itself.
pub proof fn lemma_quadrant_measure<T: Midpoint>(b: Boundary<T>)
    requires
        b.0.le_spec(b.1),
        b.2.le_spec(b.3),
    ensures
        region_measure::<T>(quadrants(b).0) <= region_measure::<T>(b),
        region_measure::<T>(quadrants(b).1) <= region_measure::<T>(b),
        region_measure::<T>(quadrants(b).2) <= region_measure::<T>(b),
        region_measure::<T>(quadrants(b).3) <= region_measure::<T>(b),
{
    let mx = T::spec_midpoint(b.0, b.1);
    let my = T::spec_midpoint(b.2, b.3);
    T::mid_bounds(b.0, b.1);
    T::mid_bounds(b.2, b.3);
    T::width_add(b.0, mx, b.1);
    T::width_add(b.2, my, b.3);
}

/// A region that holds two distinct points splits into strictly smaller
/// quadrants: at least one axis has width two or more, and the midpoint
/// splits that axis into two nonempty parts.
pub proof fn lemma_split_measure_decreases<T: Midpoint>(b: Boundary<T>, p: Point<T>, q: Point<T>)
    requires
        spec_contains(b, p),
        spec_contains(b, q),
        p != q,
    ensures
        region_measure::<T>(quadrants(b).0) < region_measure::<T>(b),
        region_measure::<T>(quadrants(b).1) < region_measure::<T>(b),
        region_measure::<T>(quadrants(b).2) < region_measure::<T>(b),
        region_measure::<T>(quadrants(b).3) < region_measure::<T>(b),
{
    let mx = T::spec_midpoint(b.0, b.1);
    let my = T::spec_midpoint(b.2, b.3);
    // The region's axis intervals are ordered, since each holds a coordinate.
    T::le_total(b.1, p.0);
    T::le_trans(b.0, p.0, b.1);
    T::le_total(b.3, p.1);
    T::le_trans(b.2, p.1, b.3);
    T::mid_bounds(b.0, b.1);
    T::mid_bounds(b.2, b.3);
    T::width_add(b.0, mx, b.1);
    T::width_add(b.2, my, b.3);
    if p.0 != q.0 {
        // Two distinct x coordinates in the x interval: its width is >= 2.
        if T::width(b.0, b.1) <= 1 {
            T::atomic(b.0, b.1, p.0, q.0);
            assert(false);
        }
        T::mid_progress(b.0, b.1);
    } else {
        if T::width(b.2, b.3) <= 1 {
            T::atomic(b.2, b.3, p.1, q.1);
            assert(false);
        }
        T::mid_progress(b.2, b.3);
    }
}

/// Two regions that both contain some point intersect.
pub proof fn lemma_common_point_intersects<T: Midpoint>(a: Boundary<T>, b: Boundary<T>, p: Point<T>)
    requires
        spec_contains(a, p),
        spec_contains(b, p),
    ensures
        spec_intersects(a, b),
{
    if b.1.le_spec(a.0) {
        T::le_trans(b.1, a.0, p.0);
        assert(false);
    }
    if a.1.le_spec(b.0) {
        T::le_trans(a.1, b.0, p.0);
        assert(false);
    }
    if b.3.le_spec(a.2) {
        T::le_trans(b.3, a.2, p.1);
        assert(false);
    }
    if a.3.le_spec(b.2) {
        T::le_trans(a.3, b.2, p.1);
        assert(false);
    }
}

/// Four well-formed trees whose boundaries are the four quadrants of a
/// region store pairwise disjoint point sets: the quadrants are disjoint,
/// and each tree's points lie inside its own boundary.
pub proof fn lemma_quadrant_children_disjoint<T: Midpoint>(
    b: Boundary<T>,
    c0: QuadTree<T>,
    c1: QuadTree<T>,
    c2: QuadTree<T>,
    c3: QuadTree<T>,
)
    requires
        c0.wf(),
        c1.wf(),
        c2.wf(),
        c3.wf(),
        c0.bound() == quadrants(b).0,
        c1.bound() == quadrants(b).1,
        c2.bound() == quadrants(b).2,
        c3.bound() == quadrants(b).3,
    ensures
        c0.pts().disjoint(c1.pts()),
        c0.pts().disjoint(c2.pts()),
        c0.pts().disjoint(c3.pts()),
        c1.pts().disjoint(c2.pts()),
        c1.pts().disjoint(c3.pts()),
        c2.pts().disjoint(c3.pts()),
{
    c0.lemma_pts_in_bound();
    c1.lemma_pts_in_bound();
    c2.lemma_pts_in_bound();
    c3.lemma_pts_in_bound();
}

/// A quadtree node: either a leaf holding its capacity, its boundary and the
/// points stored directly in it, or an internal node holding the same
/// capacity, its boundary and four children covering its quadrants, in the
/// order top-left, bottom-left, top-right, bottom-right.
pub enum QuadTree<T: Midpoint> {
    Leaf(usize, Boundary<T>, Vec<Point<T>>),
    Node(
        usize,
        Boundary<T>,
        Box<QuadTree<T>>,
        Box<QuadTree<T>>,
        Box<QuadTree<T>>,
        Box<QuadTree<T>>,
    ),
}

impl<T: Midpoint> QuadTree<T> {
    /// The boundary of this node.
    pub open spec fn bound(self) -> Boundary<T> {
        match self {
            QuadTree::Leaf(_, b, _) => b,
            QuadTree::Node(_, b, _, _, _, _) => b,
        }
    }

    /// The node capacity, fixed at construction and inherited by children.
    pub open spec fn node_capacity(self) -> usize {
        match self {
            QuadTree::Leaf(c, _, _) => c,
            QuadTree::Node(c, _, _, _, _, _) => c,
        }
    }

    /// A structural measure of the tree, used only for termination.
    pub open spec fn height(self) -> nat
        decreases self,
    {
        match self {
            QuadTree::Leaf(_, _, _) => 0,
            QuadTree::Node(_, _, c0, c1, c2, c3) => 1 + c0.height() + c1.height() + c2.height()
                + c3.height(),
        }
    }

    /// The set of points stored anywhere in the tree: the mathematical model
    /// of the structure.
    pub open spec fn pts(self) -> Set<Point<T>>
        decreases self,
    {
        match self {
            QuadTree::Leaf(_, _, v) => v@.to_set(),
            QuadTree::Node(_, _, c0, c1, c2, c3) => c0.pts() + c1.pts() + c2.pts() + c3.pts(),
        }
    }

    /// Well-formedness. A leaf holds at most `capacity` distinct points, all
    /// inside its boundary. An internal node has an ordered boundary and four
    /// well-formed children of the same capacity whose boundaries are exactly
    /// its quadrants.
    pub open spec fn wf(self) -> bool
        decreases self,
    {
        match self {
            QuadTree::Leaf(c, b, v) => {
                &&& c >= 1
                &&& v@.len() <= c
                &&& v@.no_duplicates()
                &&& forall|i: int| 0 <= i < v@.len() ==> spec_contains(b, #[trigger] v@[i])
            },
            QuadTree::Node(c, b, c0, c1, c2, c3) => {
                &&& c >= 1
                &&& b.0.le_spec(b.1)
                &&& b.2.le_spec(b.3)
                &&& c0.bound() == quadrants(b).0
                &&& c1.bound() == quadrants(b).1
                &&& c2.bound() == quadrants(b).2
                &&& c3.bound() == quadrants(b).3
                &&& c0.node_capacity() == c
                &&& c1.node_capacity() == c
                &&& c2.node_capacity() == c
                &&& c3.node_capacity() == c
                &&& c0.wf()
                &&& c1.wf()
                &&& c2.wf()
                &&& c3.wf()
            },
        }
    }

    /// The set of points a range query with boundary `q` must return.
    pub open spec fn search_model(self, q: Boundary<T>) -> Set<Point<T>> {
        range_points(self.pts(), q)
    }

    /// The stored point set is always finite.
    pub proof fn lemma_pts_finite(self)
        ensures
            self.pts().finite(),
        decreases self,
    {
        match self {
            QuadTree::Leaf(_, _, v) => {
                seq_to_set_is_finite::<Point<T>>(v@);
            },
            QuadTree::Node(_, _, c0, c1, c2, c3) => {
                c0.lemma_pts_finite();
                c1.lemma_pts_finite();
                c2.lemma_pts_finite();
                c3.lemma_pts_finite();
            },
        }
    }

    /// Every stored point lies inside the boundary of the node storing it.
    pub proof fn lemma_pts_in_bound(self)
        requires
            self.wf(),
        ensures
            forall|p: Point<T>| #[trigger] self.pts().contains(p) ==> spec_contains(self.bound(), p),
        decreases self,
    {
        match self {
            QuadTree::Leaf(_, b, v) => {
                assert forall|p: Point<T>| #[trigger] self.pts().contains(p) implies spec_contains(
                    b,
                    p,
                ) by {
                    let i = choose|i: int| 0 <= i < v@.len() && v@[i] == p;
                    assert(spec_contains(b, v@[i]));
                };
            },
            QuadTree::Node(_, b, c0, c1, c2, c3) => {
                c0.lemma_pts_in_bound();
                c1.lemma_pts_in_bound();
                c2.lemma_pts_in_bound();
                c3.lemma_pts_in_bound();
                assert forall|p: Point<T>| #[trigger] self.pts().contains(p) implies spec_contains(
                    b,
                    p,
                ) by {
                    assert(c0.pts().contains(p) || c1.pts().contains(p) || c2.pts().contains(p)
                        || c3.pts().contains(p));
                    lemma_quadrant_in_region::<T>(b, p);
                };
            },
        }
    }

    /// Creates a leaf with the default capacity of 64 and no points.
    pub fn new(boundary: Boundary<T>) -> (t: Self)
        ensures
            t is Leaf,
            t.wf(),
            t.pts() == Set::<Point<T>>::empty(),
            t.bound() == boundary,
            t.node_capacity() == 64,
    {
        Self::with_node_capacity(64, boundary)
    }

    /// Creates a leaf with the given positive capacity and no points.
    pub fn with_node_capacity(capacity: usize, boundary: Boundary<T>) -> (t: Self)
        requires
            capacity >= 1,
        ensures
            t is Leaf,
            t.wf(),
            t.pts() == Set::<Point<T>>::empty(),
            t.bound() == boundary,
            t.node_capacity() == capacity,
    {
        let v: Vec<Point<T>> = Vec::new();
        proof {
            assert(v@.to_set() =~= Set::<Point<T>>::empty());
        }
        QuadTree::Leaf(capacity, boundary, v)
    }

    /// The boundary this node covers.
    pub fn get_boundary(&self) -> (r: Boundary<T>)
        ensures
            r == self.bound(),
    {
        match self {
            QuadTree::Leaf(_, b, _) => *b,
            QuadTree::Node(_, b, _, _, _, _) => *b,
        }
    }

    /// Half-open containment: true exactly when `x_min <= x < x_max` and
    /// `y_min <= y < y_max`.
    pub fn contains(b: &Boundary<T>, p: &Point<T>) -> (r: bool)
        ensures
            r == spec_contains(*b, *p),
    {
        b.0.le(p.0) && !b.1.le(p.0) && b.2.le(p.1) && !b.3.le(p.1)
    }

    /// Open-interval intersection: true exactly when each boundary's minimum
    /// is strictly below the other's maximum on both axes.
    pub fn intersects(a: &Boundary<T>, b: &Boundary<T>) -> (r: bool)
        ensures
            r == spec_intersects(*a, *b),
    {
        !b.1.le(a.0) && !a.1.le(b.0) && !b.3.le(a.2) && !a.3.le(b.2)
    }

    /// The number of points stored in the whole tree, recomputed by
    /// traversal.
    pub fn size(&self) -> (r: usize)
        requires
            self.wf(),
            self.pts().len() <= usize::MAX,
        ensures
            r == self.pts().len(),
        decreases self,
    {
        match self {
            QuadTree::Leaf(_, _, v) => {
                proof {
                    v@.unique_seq_to_set();
                }
                v.len()
            },
            QuadTree::Node(_, b, c0, c1, c2, c3) => {
                proof {
                    self.lemma_pts_finite();
                    c0.lemma_pts_finite();
                    c1.lemma_pts_finite();
                    c2.lemma_pts_finite();
                    c3.lemma_pts_finite();
                    lemma_quadrant_children_disjoint(*b, **c0, **c1, **c2, **c3);
                    assert((c0.pts() + c1.pts()).disjoint(c2.pts()));
                    assert((c0.pts() + c1.pts() + c2.pts()).disjoint(c3.pts()));
                    lemma_set_disjoint_lens(c0.pts(), c1.pts());
                    lemma_set_disjoint_lens(c0.pts() + c1.pts(), c2.pts());
                    lemma_set_disjoint_lens(c0.pts() + c1.pts() + c2.pts(), c3.pts());
                    lemma_len_subset(c0.pts(), self.pts());
                    lemma_len_subset(c1.pts(), self.pts());
                    lemma_len_subset(c2.pts(), self.pts());
                    lemma_len_subset(c3.pts(), self.pts());
                }
                let s0 = c0.size();
                let s1 = c1.size();
                let s2 = c2.size();
                let s3 = c3.size();
                s0 + s1 + s2 + s3
            },
        }
    }

    /// Range query: every stored point inside the query boundary, each
    /// exactly once, in no guaranteed order. A subtree whose boundary does
    /// not intersect the query is pruned without being visited.
    pub fn search(&self, boundary: &Boundary<T>) -> (r: Vec<Point<T>>)
        requires
            self.wf(),
        ensures
            r@.to_set() == self.search_model(*boundary),
            r@.no_duplicates(),
        decreases self,
    {
        if !Self::intersects(&self.get_boundary(), boundary) {
            let out: Vec<Point<T>> = Vec::new();
            proof {
                self.lemma_pts_in_bound();
                assert forall|p: Point<T>| !(#[trigger] self.search_model(*boundary).contains(
                    p,
                )) by {
                    if self.pts().contains(p) && spec_contains(*boundary, p) {
                        lemma_common_point_intersects::<T>(self.bound(), *boundary, p);
                    }
                };
                assert(out@.to_set() =~= self.search_model(*boundary));
            }
            return out;
        }
        match self {
            QuadTree::Leaf(_, _, v) => {
                let mut out: Vec<Point<T>> = Vec::new();
                let mut i: usize = 0;
                proof {
                    assert(out@.to_set() =~= range_points(
                        v@.subrange(0, 0).to_set(),
                        *boundary,
                    ));
                }
                while i < v.len()
                    invariant
                        self.wf(),
                        self == QuadTree::Leaf(self.node_capacity(), self.bound(), *v),
                        i <= v.len(),
                        out@.to_set() == range_points(v@.subrange(0, i as int).to_set(), *boundary),
                        out@.no_duplicates(),
                    decreases v.len() - i,
                {
                    let p = v[i];
                    proof {
                        let pre = v@.subrange(0, i as int);
                        assert(v@.subrange(0, i as int + 1) =~= pre.push(v@[i as int]));
                        pre.lemma_push_to_set_commute(v@[i as int]);
                        if spec_contains(*boundary, p) {
                            assert(range_points(pre.to_set().insert(p), *boundary)
                                =~= range_points(pre.to_set(), *boundary).insert(p));
                            // The new point is not yet in `out`: the leaf holds no
                            // duplicates, so it is not among the first `i` points.
                            if out@.to_set().contains(p) {
                                let k = choose|k: int| 0 <= k < pre.len() && pre[k] == p;
                                assert(v@[k] == v@[i as int]);
                                assert(false);
                            }
                            out@.lemma_push_to_set_commute(p);
                        } else {
                            assert(range_points(pre.to_set().insert(p), *boundary)
                                =~= range_points(pre.to_set(), *boundary));
                        }
                    }
                    if Self::contains(boundary, &p) {
                        out.push(p);
                    }
                    i += 1;
                }
                proof {
                    assert(v@.subrange(0, v@.len() as int) =~= v@);
                }
                out
            },
            QuadTree::Node(_, b, c0, c1, c2, c3) => {
                let mut out = c0.search(boundary);
                let mut o1 = c1.search(boundary);
                let mut o2 = c2.search(boundary);
                let mut o3 = c3.search(boundary);
                proof {
                    lemma_quadrant_children_disjoint(*b, **c0, **c1, **c2, **c3);
                    assert forall|x: int, y: int|
                        0 <= x < out@.len() && 0 <= y < o1@.len() implies out@[x] != o1@[y] by {
                        assert(out@.to_set().contains(out@[x]));
                        assert(o1@.to_set().contains(o1@[y]));
                    };
                    vstd::seq_lib::lemma_no_dup_in_concat(out@, o1@);
                    vstd::seq_lib::seq_to_set_distributes_over_add(out@, o1@);
                }
                out.append(&mut o1);
                proof {
                    assert forall|x: int, y: int|
                        0 <= x < out@.len() && 0 <= y < o2@.len() implies out@[x] != o2@[y] by {
                        assert(out@.to_set().contains(out@[x]));
                        assert(o2@.to_set().contains(o2@[y]));
                    };
                    vstd::seq_lib::lemma_no_dup_in_concat(out@, o2@);
                    vstd::seq_lib::seq_to_set_distributes_over_add(out@, o2@);
                }
                out.append(&mut o2);
                proof {
                    assert forall|x: int, y: int|
                        0 <= x < out@.len() && 0 <= y < o3@.len() implies out@[x] != o3@[y] by {
                        assert(out@.to_set().contains(out@[x]));
                        assert(o3@.to_set().contains(o3@[y]));
                    };
                    vstd::seq_lib::lemma_no_dup_in_concat(out@, o3@);
                    vstd::seq_lib::seq_to_set_distributes_over_add(out@, o3@);
                    assert(range_points(c0.pts() + c1.pts() + c2.pts() + c3.pts(), *boundary)
                        =~= range_points(c0.pts(), *boundary) + range_points(c1.pts(), *boundary)
                        + range_points(c2.pts(), *boundary) + range_points(c3.pts(), *boundary));
                }
                out.append(&mut o3);
                out
            },
        }
    }

    /// Inserts a point. Returns false, with no change, when the point lies
    /// outside this node's boundary; otherwise stores the point (a no-op if
    /// an equal point is already stored) and returns true, splitting a full
    /// leaf into four quadrant children on the way.
    pub fn insert(&mut self, point: Point<T>) -> (r: bool)
        requires
            old(self).wf(),
        ensures
            final(self).wf(),
            final(self).bound() == old(self).bound(),
            final(self).node_capacity() == old(self).node_capacity(),
            r == spec_contains(old(self).bound(), point),
            final(self).pts() == insert_model(old(self).pts(), old(self).bound(), point),
            !spec_contains(old(self).bound(), point) ==> *final(self) == *old(self),
            old(self).pts().contains(point) ==> *final(self) == *old(self),
            *final(self) is Node <==> (*old(self) is Node || (spec_contains(
                old(self).bound(),
                point,
            ) && !old(self).pts().contains(point) && old(self).pts().len()
                >= old(self).node_capacity())),
    {
        let boundary = self.get_boundary();
        let mut tmp = QuadTree::Leaf(1, boundary, Vec::new());
        core::mem::swap(self, &mut tmp);
        let (t, r) = Self::insert_inner(tmp, point);
        *self = t;
        r
    }

    /// The recursive worker behind `insert`, taking the node by value. The
    /// termination measure is the extent of the node's region first and the
    /// tree structure second: delegation to an existing child shrinks the
    /// structure without growing the region, while a split hands points to
    /// fresh leaves over strictly smaller regions (a full leaf holds a point
    /// distinct from the incoming one, so its region splits properly).
    #[verifier::loop_isolation(false)]
    fn insert_inner(t: QuadTree<T>, point: Point<T>) -> (res: (QuadTree<T>, bool))
        requires
            t.wf(),
        ensures
            res.0.wf(),
            res.0.bound() == t.bound(),
            res.0.node_capacity() == t.node_capacity(),
            res.1 == spec_contains(t.bound(), point),
            res.0.pts() == insert_model(t.pts(), t.bound(), point),
            !spec_contains(t.bound(), point) ==> res.0 == t,
            t.pts().contains(point) ==> res.0 == t,
            res.0 is Node <==> (t is Node || (spec_contains(t.bound(), point)
                && !t.pts().contains(point) && t.pts().len() >= t.node_capacity())),
        decreases region_measure::<T>(t.bound()), t.height(),
    {
        let b = t.get_boundary();
        if !Self::contains(&b, &point) {
            return (t, false);
        }
        match t {
            QuadTree::Leaf(cap, bb, mut v) => {
                proof {
                    v@.unique_seq_to_set();
                }
                let mut i: usize = 0;
                let mut dup = false;
                while i < v.len()
                    invariant
                        i <= v.len(),
                        dup == v@.subrange(0, i as int).contains(point),
                    decreases v.len() - i,
                {
                    let q = v[i];
                    if q.0.eq_val(point.0) && q.1.eq_val(point.1) {
                        dup = true;
                    }
                    proof {
                        let pre = v@.subrange(0, i as int);
                        let post = v@.subrange(0, i as int + 1);
                        assert(post =~= pre.push(v@[i as int]));
                        if v@[i as int] == point {
                            assert(post[i as int] == point);
                            assert(post.contains(point));
                        } else if pre.contains(point) {
                            let k = choose|k: int| 0 <= k < pre.len() && pre[k] == point;
                            assert(post[k] == point);
                            assert(post.contains(point));
                        } else if post.contains(point) {
                            let k = choose|k: int| 0 <= k < post.len() && post[k] == point;
                            assert(0 <= k < i as int && pre[k] == point);
                            assert(false);
                        }
                    }
                    i += 1;
                }
                proof {
                    assert(v@.subrange(0, v@.len() as int) =~= v@);
                }
                if dup {
                    proof {
                        assert(v@.to_set().insert(point) =~= v@.to_set());
                    }
                    return (QuadTree::Leaf(cap, bb, v), true);
                }
                if v.len() < cap {
                    let ghost ov = v@;
                    v.push(point);
                    proof {
                        ov.lemma_push_to_set_commute(point);
                        assert(ov.push(point) =~= ov + seq![point]);
                        vstd::seq_lib::lemma_no_dup_in_concat(ov, seq![point]);
                    }
                    return (QuadTree::Leaf(cap, bb, v), true);
                }
                // Split: the leaf is full and the incoming point is new.
                proof {
                    assert(v@.contains(v@[0]));
                    lemma_split_measure_decreases::<T>(bb, point, v@[0]);
                }
                let mx = bb.0.midpoint(bb.1);
                let my = bb.2.midpoint(bb.3);
                let mut c0 = QuadTree::Leaf(cap, (bb.0, mx, bb.2, my), Vec::new());
                let mut c1 = QuadTree::Leaf(cap, (bb.0, mx, my, bb.3), Vec::new());
                let mut c2 = QuadTree::Leaf(cap, (mx, bb.1, bb.2, my), Vec::new());
                let mut c3 = QuadTree::Leaf(cap, (mx, bb.1, my, bb.3), Vec::new());
                proof {
                    assert(c0.pts() + c1.pts() + c2.pts() + c3.pts() =~= v@.subrange(
                        0,
                        0,
                    ).to_set());
                }
                let mut j: usize = 0;
                while j < v.len()
                    invariant
                        j <= v.len(),
                        cap >= 1,
                        v@.no_duplicates(),
                        forall|k: int| 0 <= k < v@.len() ==> spec_contains(bb, #[trigger] v@[k]),
                        c0.wf(),
                        c1.wf(),
                        c2.wf(),
                        c3.wf(),
                        c0.bound() == quadrants(bb).0,
                        c1.bound() == quadrants(bb).1,
                        c2.bound() == quadrants(bb).2,
                        c3.bound() == quadrants(bb).3,
                        c0.node_capacity() == cap,
                        c1.node_capacity() == cap,
                        c2.node_capacity() == cap,
                        c3.node_capacity() == cap,
                        c0.pts() + c1.pts() + c2.pts() + c3.pts() == v@.subrange(
                            0,
                            j as int,
                        ).to_set(),
                        region_measure::<T>(quadrants(bb).0) < region_measure::<T>(bb),
                        region_measure::<T>(quadrants(bb).1) < region_measure::<T>(bb),
                        region_measure::<T>(quadrants(bb).2) < region_measure::<T>(bb),
                        region_measure::<T>(quadrants(bb).3) < region_measure::<T>(bb),
                    decreases v.len() - j,
                {
                    let q = v[j];
                    proof {
                        lemma_quadrants_partition::<T>(bb, q);
                    }
                    let ghost old_union = c0.pts() + c1.pts() + c2.pts() + c3.pts();
                    let (t0, r0) = Self::insert_inner(c0, q);
                    let (t1, r1) = Self::insert_inner(c1, q);
                    let (t2, r2) = Self::insert_inner(c2, q);
                    let (t3, r3) = Self::insert_inner(c3, q);
                    proof {
                        assert(t0.pts() + t1.pts() + t2.pts() + t3.pts() =~= old_union.insert(q));
                        assert(v@.subrange(0, j as int + 1) =~= v@.subrange(0, j as int).push(q));
                        v@.subrange(0, j as int).lemma_push_to_set_commute(q);
                    }
                    c0 = t0;
                    c1 = t1;
                    c2 = t2;
                    c3 = t3;
                    j += 1;
                }
                proof {
                    assert(v@.subrange(0, v@.len() as int) =~= v@);
                    lemma_quadrants_partition::<T>(bb, point);
                }
                let ghost old_union = c0.pts() + c1.pts() + c2.pts() + c3.pts();
                let (u0, s0) = Self::insert_inner(c0, point);
                let (u1, s1) = Self::insert_inner(c1, point);
                let (u2, s2) = Self::insert_inner(c2, point);
                let (u3, s3) = Self::insert_inner(c3, point);
                proof {
                    assert(u0.pts() + u1.pts() + u2.pts() + u3.pts() =~= old_union.insert(point));
                    // The boundary's axis intervals are ordered: each holds the
                    // incoming point's coordinate.
                    T::le_total(bb.1, point.0);
                    T::le_trans(bb.0, point.0, bb.1);
                    T::le_total(bb.3, point.1);
                    T::le_trans(bb.2, point.1, bb.3);
                }
                (
                    QuadTree::Node(
                        cap,
                        bb,
                        Box::new(u0),
                        Box::new(u1),
                        Box::new(u2),
                        Box::new(u3),
                    ),
                    true,
                )
            },
            QuadTree::Node(cap, bb, c0, c1, c2, c3) => {
                proof {
                    lemma_quadrant_measure::<T>(bb);
                    lemma_quadrants_partition::<T>(bb, point);
                }
                let ghost gc0 = *c0;
                let ghost gc1 = *c1;
                let ghost gc2 = *c2;
                let ghost gc3 = *c3;
                let ghost old_union = c0.pts() + c1.pts() + c2.pts() + c3.pts();
                let (n0, r0) = Self::insert_inner(*c0, point);
                let (n1, r1) = Self::insert_inner(*c1, point);
                let (n2, r2) = Self::insert_inner(*c2, point);
                let (n3, r3) = Self::insert_inner(*c3, point);
                let result = QuadTree::Node(
                    cap,
                    bb,
                    Box::new(n0),
                    Box::new(n1),
                    Box::new(n2),
                    Box::new(n3),
                );
                proof {
                    assert(n0.pts() + n1.pts() + n2.pts() + n3.pts() =~= old_union.insert(point));
                    if t.pts().contains(point) {
                        // The point is already stored in the one child whose
                        // quadrant contains it, so every delegation was a no-op
                        // and the node is rebuilt unchanged.
                        gc0.lemma_pts_in_bound();
                        gc1.lemma_pts_in_bound();
                        gc2.lemma_pts_in_bound();
                        gc3.lemma_pts_in_bound();
                        assert(gc0.pts().contains(point) || gc1.pts().contains(point)
                            || gc2.pts().contains(point) || gc3.pts().contains(point));
                        assert(n0 == gc0 && n1 == gc1 && n2 == gc2 && n3 == gc3);
                        assert(result == t);
                    }
                }
                (result, true)
            },
        }
    }
}

} // verus!
