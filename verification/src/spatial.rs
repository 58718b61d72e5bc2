//! Quadtree spatial index over 2D integer coordinates.
//!
//! The index stores points on an integer grid (coordinates bounded by
//! [`crate::MAX_COORD`] so that every squared-distance computation fits in
//! `i128`), partitions space adaptively once a region holds more than
//! `capacity` points, and answers range, radius and nearest-neighbour
//! queries by pruning subtrees whose bounds cannot meet the query region.

use vstd::prelude::*;

verus! {

use crate::MAX_COORD;
use crate::in_coord_range;

/// Point in 2D space.
#[derive(Clone, Copy, PartialEq, Eq, Structural, Debug)]
pub struct Point {
    pub x: i64,
    pub y: i64,
}

/// Axis-aligned rectangle, used both for a partition's extent and for a
/// query region. The invariant `min <= max` on both axes is the caller's
/// responsibility; [`BoundingBox::wf`] states it together with the
/// coordinate range bound.
#[derive(Clone, Copy, PartialEq, Eq, Structural, Debug)]
pub struct BoundingBox {
    pub min_x: i64,
    pub min_y: i64,
    pub max_x: i64,
    pub max_y: i64,
}

impl Point {
    /// Both coordinates within the range the index supports.
    pub open spec fn wf(self) -> bool {
        in_coord_range(self.x) && in_coord_range(self.y)
    }
}

/// Squared Euclidean distance between two points.
pub open spec fn dist_sq(a: Point, b: Point) -> int {
    (a.x - b.x) * (a.x - b.x) + (a.y - b.y) * (a.y - b.y)
}

impl BoundingBox {
    /// Well-formed box: ordered on both axes, coordinates in range.
    pub open spec fn wf(self) -> bool {
        &&& self.min_x <= self.max_x
        &&& self.min_y <= self.max_y
        &&& in_coord_range(self.min_x)
        &&& in_coord_range(self.min_y)
        &&& in_coord_range(self.max_x)
        &&& in_coord_range(self.max_y)
    }

    /// Closed-interval containment on all four edges.
    pub open spec fn spec_contains(self, p: Point) -> bool {
        &&& self.min_x <= p.x <= self.max_x
        &&& self.min_y <= p.y <= self.max_y
    }

    /// Separating-axis test: boxes that merely touch still intersect.
    pub open spec fn spec_intersects(self, other: BoundingBox) -> bool {
        !(self.max_x < other.min_x || self.min_x > other.max_x || self.max_y < other.min_y
            || self.min_y > other.max_y)
    }

    /// Check if a point is contained within this bounding box.
    pub fn contains(&self, point: &Point) -> (r: bool)
        ensures
            r == self.spec_contains(*point),
    {
        point.x >= self.min_x && point.x <= self.max_x && point.y >= self.min_y
            && point.y <= self.max_y
    }

    /// Check if this bounding box intersects with another.
    pub fn intersects(&self, other: &BoundingBox) -> (r: bool)
        ensures
            r == self.spec_intersects(*other),
    {
        !(self.max_x < other.min_x || self.min_x > other.max_x || self.max_y < other.min_y
            || self.min_y > other.max_y)
    }

    /// Half of the box's width, rounded down.
    pub open spec fn half_w(self) -> int {
        (self.max_x - self.min_x) / 2
    }

    /// Half of the box's height, rounded down.
    pub open spec fn half_h(self) -> int {
        (self.max_y - self.min_y) / 2
    }

    /// North-east quadrant produced by subdivision.
    pub open spec fn quad_ne(self) -> BoundingBox {
        BoundingBox {
            min_x: (self.min_x + self.half_w()) as i64,
            min_y: self.min_y,
            max_x: (self.min_x + 2 * self.half_w()) as i64,
            max_y: (self.min_y + self.half_h()) as i64,
        }
    }

    /// North-west quadrant produced by subdivision.
    pub open spec fn quad_nw(self) -> BoundingBox {
        BoundingBox {
            min_x: self.min_x,
            min_y: self.min_y,
            max_x: (self.min_x + self.half_w()) as i64,
            max_y: (self.min_y + self.half_h()) as i64,
        }
    }

    /// South-east quadrant produced by subdivision.
    pub open spec fn quad_se(self) -> BoundingBox {
        BoundingBox {
            min_x: (self.min_x + self.half_w()) as i64,
            min_y: (self.min_y + self.half_h()) as i64,
            max_x: (self.min_x + 2 * self.half_w()) as i64,
            max_y: (self.min_y + 2 * self.half_h()) as i64,
        }
    }

    /// South-west quadrant produced by subdivision.
    pub open spec fn quad_sw(self) -> BoundingBox {
        BoundingBox {
            min_x: self.min_x,
            min_y: (self.min_y + self.half_h()) as i64,
            max_x: (self.min_x + self.half_w()) as i64,
            max_y: (self.min_y + 2 * self.half_h()) as i64,
        }
    }
}

/// The four quadrants of a well-formed box are well-formed sub-boxes.
pub proof fn lemma_quadrants_wf(b: BoundingBox)
    requires
        b.wf(),
    ensures
        b.quad_ne().wf(),
        b.quad_nw().wf(),
        b.quad_se().wf(),
        b.quad_sw().wf(),
        forall|p: Point| b.quad_ne().spec_contains(p) ==> b.spec_contains(p),
        forall|p: Point| b.quad_nw().spec_contains(p) ==> b.spec_contains(p),
        forall|p: Point| b.quad_se().spec_contains(p) ==> b.spec_contains(p),
        forall|p: Point| b.quad_sw().spec_contains(p) ==> b.spec_contains(p),
{
    let w = b.half_w();
    let h = b.half_h();
    assert(0 <= w && b.min_x + 2 * w <= b.max_x);
    assert(0 <= h && b.min_y + 2 * h <= b.max_y);
}

/// A point with an identifier and free-form metadata, as stored in the index.
pub struct SpatialNode {
    pub id: String,
    pub position: Point,
    pub metadata: Vec<(String, String)>,
}

/// Mathematical image of a [`SpatialNode`]: the identifier and metadata as
/// character sequences, the position as-is.
pub ghost struct NodeView {
    pub id: Seq<char>,
    pub position: Point,
    pub metadata: Seq<(Seq<char>, Seq<char>)>,
}

impl View for SpatialNode {
    type V = NodeView;

    open spec fn view(&self) -> NodeView {
        NodeView {
            id: self.id@,
            position: self.position,
            metadata: Seq::new(
                self.metadata@.len(),
                |i: int| (self.metadata@[i].0@, self.metadata@[i].1@),
            ),
        }
    }
}

/// Views of a sequence of stored nodes.
pub open spec fn views(s: Seq<SpatialNode>) -> Seq<NodeView> {
    s.map_values(|n: SpatialNode| n@)
}

/// Predicate selecting the points a query box contains.
pub open spec fn in_box(b: BoundingBox) -> spec_fn(NodeView) -> bool {
    |n: NodeView| b.spec_contains(n.position)
}

/// Predicate selecting the points within Euclidean distance `r` of `c`
/// (by comparing squared distances, which is exact on the integer grid).
pub open spec fn in_radius(c: Point, r: i64) -> spec_fn(NodeView) -> bool {
    |n: NodeView| dist_sq(n.position, c) <= r * r
}

/// Squares of values bounded by `m` are bounded by `m * m`.
proof fn lemma_sq_le(a: int, m: int)
    requires
        -m <= a <= m,
        0 <= m,
    ensures
        0 <= a * a <= m * m,
{
    assert(0 <= a * a <= m * m) by (nonlinear_arith)
        requires
            -m <= a <= m,
            0 <= m,
    {
    }
}

/// A point within Euclidean distance `r` of `c` lies inside the square of
/// half-width `r` around `c`: the search circle is covered by its bounding
/// square, which justifies pruning against the square.
proof fn lemma_circle_in_square(c: Point, r: i64, p: Point)
    requires
        0 <= r,
        dist_sq(p, c) <= r * r,
    ensures
        c.x - r <= p.x <= c.x + r,
        c.y - r <= p.y <= c.y + r,
{
    let dx = p.x - c.x;
    let dy = p.y - c.y;
    assert(dx * dx + dy * dy <= r * r);
    assert(-r <= dx <= r && -r <= dy <= r) by (nonlinear_arith)
        requires
            dx * dx + dy * dy <= r * r,
            0 <= r,
    {
    }
}

/// Filtering a sequence none of whose elements satisfies the predicate
/// yields the empty sequence.
proof fn lemma_filter_none<A>(s: Seq<A>, pred: spec_fn(A) -> bool)
    requires
        forall|i: int| 0 <= i < s.len() ==> !pred(#[trigger] s[i]),
    ensures
        s.filter(pred) =~= Seq::<A>::empty(),
    decreases s.len(),
{
    reveal(Seq::filter);
    if s.len() > 0 {
        assert(forall|i: int|
            0 <= i < s.drop_last().len() ==> !pred(#[trigger] s.drop_last()[i]));
        lemma_filter_none(s.drop_last(), pred);
    }
}

/// Filtering after a push appends the pushed element exactly when the
/// predicate holds of it.
pub proof fn lemma_filter_push<A>(s: Seq<A>, x: A, pred: spec_fn(A) -> bool)
    ensures
        s.push(x).filter(pred) == if pred(x) {
            s.filter(pred).push(x)
        } else {
            s.filter(pred)
        },
{
    reveal(Seq::filter);
    assert(s.push(x).drop_last() =~= s);
    assert(s.push(x).last() == x);
}

/// Field-by-field copy of a node; the copy has the same view.
fn clone_node(n: &SpatialNode) -> (r: SpatialNode)
    ensures
        r@ == n@,
{
    let mut metadata: Vec<(String, String)> = Vec::new();
    let mut i: usize = 0;
    while i < n.metadata.len()
        invariant
            i <= n.metadata@.len(),
            metadata@.len() == i,
            forall|j: int|
                0 <= j < i ==> (#[trigger] metadata@[j]).0@ == n.metadata@[j].0@
                    && metadata@[j].1@ == n.metadata@[j].1@,
        decreases n.metadata@.len() - i,
    {
        let pair = (n.metadata[i].0.clone(), n.metadata[i].1.clone());
        metadata.push(pair);
        i += 1;
    }
    let r = SpatialNode { id: n.id.clone(), position: n.position, metadata };
    proof {
        assert(r@.metadata =~= n@.metadata);
        assert(r@ == n@);
    }
    r
}

/// Quadtree partition node: owns up to `capacity` points directly; once
/// full it subdivides into four equal quadrants and sends every later
/// insertion to exactly one child. Points already held are not
/// redistributed when the node divides.
struct QuadTreeNode {
    bounds: BoundingBox,
    capacity: usize,
    nodes: Vec<SpatialNode>,
    divided: bool,
    northeast: Option<Box<QuadTreeNode>>,
    northwest: Option<Box<QuadTreeNode>>,
    southeast: Option<Box<QuadTreeNode>>,
    southwest: Option<Box<QuadTreeNode>>,
}

impl QuadTreeNode {
    /// Every point in the subtree, own points first, then the NE, NW, SE,
    /// SW children in depth-first order — the order queries report them.
    pub closed spec fn points(self) -> Seq<NodeView>
        decreases self,
    {
        views(self.nodes@) + Self::opt_points(self.northeast) + Self::opt_points(self.northwest)
            + Self::opt_points(self.southeast) + Self::opt_points(self.southwest)
    }

    pub closed spec fn opt_points(c: Option<Box<QuadTreeNode>>) -> Seq<NodeView>
        decreases c,
    {
        match c {
            Some(n) => n.points(),
            None => Seq::empty(),
        }
    }

    /// A present child over the given quadrant, well formed.
    spec fn child_ok(c: Option<Box<QuadTreeNode>>, b: BoundingBox, cap: usize) -> bool
        decreases c,
    {
        match c {
            Some(n) => n.bounds == b && n.capacity == cap && n.wf(),
            None => false,
        }
    }

    /// Structural invariant: capacity is positive, an undivided node holds
    /// at most `capacity` points and no children, a divided node holds
    /// exactly `capacity` frozen points and four well-formed children over
    /// the four quadrants, and every directly held point lies within the
    /// node's bounds.
    pub closed spec fn wf(self) -> bool
        decreases self,
    {
        &&& self.bounds.wf()
        &&& 1 <= self.capacity
        &&& self.nodes@.len() <= self.capacity
        &&& (self.divided ==> self.nodes@.len() == self.capacity)
        &&& (forall|i: int|
            0 <= i < self.nodes@.len() ==> self.bounds.spec_contains(
                (#[trigger] self.nodes@[i])@.position,
            ))
        &&& if self.divided {
            &&& Self::child_ok(self.northeast, self.bounds.quad_ne(), self.capacity)
            &&& Self::child_ok(self.northwest, self.bounds.quad_nw(), self.capacity)
            &&& Self::child_ok(self.southeast, self.bounds.quad_se(), self.capacity)
            &&& Self::child_ok(self.southwest, self.bounds.quad_sw(), self.capacity)
        } else {
            &&& self.northeast is None
            &&& self.northwest is None
            &&& self.southeast is None
            &&& self.southwest is None
        }
    }

    /// Exactly when an insertion of a point at `p` succeeds: the point must
    /// lie within the node's bounds, and then either the node still has
    /// room, or some (existing or would-be) child takes it. A point on a
    /// split line that all four quadrants exclude is rejected.
    pub closed spec fn accepts(self, p: Point) -> bool
        decreases self,
    {
        &&& self.bounds.spec_contains(p)
        &&& {
            ||| self.nodes@.len() < self.capacity
            ||| (self.divided && (Self::opt_accepts(self.northeast, p) || Self::opt_accepts(
                self.northwest,
                p,
            ) || Self::opt_accepts(self.southeast, p) || Self::opt_accepts(self.southwest, p)))
            ||| (!self.divided && self.nodes@.len() >= self.capacity && (
            self.bounds.quad_ne().spec_contains(p) || self.bounds.quad_nw().spec_contains(p)
                || self.bounds.quad_se().spec_contains(p) || self.bounds.quad_sw().spec_contains(
                p,
            )))
        }
    }

    pub closed spec fn opt_accepts(c: Option<Box<QuadTreeNode>>, p: Point) -> bool
        decreases c,
    {
        match c {
            Some(n) => n.accepts(p),
            None => false,
        }
    }

    /// Height of the subtree; drives termination of the recursive walks.
    spec fn height(self) -> nat
        decreases self,
    {
        let a = Self::opt_height(self.northeast);
        let b = Self::opt_height(self.northwest);
        let c = Self::opt_height(self.southeast);
        let d = Self::opt_height(self.southwest);
        1 + if a >= b && a >= c && a >= d {
            a
        } else if b >= c && b >= d {
            b
        } else if c >= d {
            c
        } else {
            d
        }
    }

    spec fn opt_height(c: Option<Box<QuadTreeNode>>) -> nat
        decreases c,
    {
        match c {
            Some(n) => n.height(),
            None => 0,
        }
    }

    /// 0 while the node still has room for a direct point, 1 once full;
    /// the second component of insertion's termination measure.
    spec fn fill_rank(self) -> int {
        if self.nodes@.len() < self.capacity {
            0
        } else {
            1
        }
    }

    fn new(bounds: BoundingBox, capacity: usize) -> (r: Self)
        ensures
            r.bounds == bounds,
            r.capacity == capacity,
            r.nodes@.len() == 0,
            !r.divided,
            r.northeast is None && r.northwest is None && r.southeast is None
                && r.southwest is None,
            r.points() =~= Seq::<NodeView>::empty(),
            r.height() == 1,
            bounds.wf() && capacity >= 1 ==> r.wf(),
    {
        let r = QuadTreeNode {
            bounds,
            capacity,
            nodes: Vec::new(),
            divided: false,
            northeast: None,
            northwest: None,
            southeast: None,
            southwest: None,
        };
        proof {
            assert(views(r.nodes@) =~= Seq::<NodeView>::empty());
            assert(r.points() =~= Seq::<NodeView>::empty());
        }
        r
    }

    /// Splits the bounds into four equal quadrants and attaches four fresh
    /// child nodes; the node's own points stay where they are.
    fn subdivided(self) -> (r: Self)
        requires
            self.wf(),
            !self.divided,
            self.nodes@.len() == self.capacity,
        ensures
            r.wf(),
            r.divided,
            r.bounds == self.bounds,
            r.capacity == self.capacity,
            r.nodes@ == self.nodes@,
            r.points() == self.points(),
            Self::child_is_fresh(r.northeast, self.bounds.quad_ne(), self.capacity),
            Self::child_is_fresh(r.northwest, self.bounds.quad_nw(), self.capacity),
            Self::child_is_fresh(r.southeast, self.bounds.quad_se(), self.capacity),
            Self::child_is_fresh(r.southwest, self.bounds.quad_sw(), self.capacity),
    {
        let x = self.bounds.min_x;
        let y = self.bounds.min_y;
        let w = (((self.bounds.max_x - self.bounds.min_x) as u64) / 2) as i64;
        let h = (((self.bounds.max_y - self.bounds.min_y) as u64) / 2) as i64;

        let ne = BoundingBox { min_x: x + w, min_y: y, max_x: x + 2 * w, max_y: y + h };
        let nw = BoundingBox { min_x: x, min_y: y, max_x: x + w, max_y: y + h };
        let se = BoundingBox { min_x: x + w, min_y: y + h, max_x: x + 2 * w, max_y: y + 2 * h };
        let sw = BoundingBox { min_x: x, min_y: y + h, max_x: x + w, max_y: y + 2 * h };
        proof {
            lemma_quadrants_wf(self.bounds);
            assert(ne == self.bounds.quad_ne());
            assert(nw == self.bounds.quad_nw());
            assert(se == self.bounds.quad_se());
            assert(sw == self.bounds.quad_sw());
        }

        let mut r = self;
        r.northeast = Some(Box::new(QuadTreeNode::new(ne, r.capacity)));
        r.northwest = Some(Box::new(QuadTreeNode::new(nw, r.capacity)));
        r.southeast = Some(Box::new(QuadTreeNode::new(se, r.capacity)));
        r.southwest = Some(Box::new(QuadTreeNode::new(sw, r.capacity)));
        r.divided = true;
        proof {
            assert(r.points() =~= self.points());
            assert(r.wf());
        }
        r
    }

    /// The subtree's points, as a multiset: own points plus the four
    /// children's, the order forgotten.
    proof fn lemma_points_ms(t: QuadTreeNode)
        ensures
            t.points().to_multiset() == views(t.nodes@).to_multiset().add(
                Self::opt_points(t.northeast).to_multiset(),
            ).add(Self::opt_points(t.northwest).to_multiset()).add(
                Self::opt_points(t.southeast).to_multiset(),
            ).add(Self::opt_points(t.southwest).to_multiset()),
    {
        let a = views(t.nodes@);
        let b = Self::opt_points(t.northeast);
        let c = Self::opt_points(t.northwest);
        let d = Self::opt_points(t.southeast);
        let e = Self::opt_points(t.southwest);
        vstd::seq_lib::lemma_multiset_commutative(a + b + c + d, e);
        vstd::seq_lib::lemma_multiset_commutative(a + b + c, d);
        vstd::seq_lib::lemma_multiset_commutative(a + b, c);
        vstd::seq_lib::lemma_multiset_commutative(a, b);
    }

    /// A fresh, empty, undivided leaf has height one, rank zero, and
    /// accepts exactly the points its bounds contain.
    proof fn lemma_fresh_leaf(n: QuadTreeNode, p: Point)
        requires
            n.nodes@.len() == 0,
            1 <= n.capacity,
            !n.divided,
            n.northeast is None,
            n.northwest is None,
            n.southeast is None,
            n.southwest is None,
        ensures
            n.height() == 1,
            n.fill_rank() == 0,
            n.accepts(p) == n.bounds.spec_contains(p),
    {
        assert(Self::opt_height(n.northeast) == 0);
        assert(Self::opt_height(n.northwest) == 0);
        assert(Self::opt_height(n.southeast) == 0);
        assert(Self::opt_height(n.southwest) == 0);
    }

    /// Replacing one child's points by the same points plus `v` (keeping
    /// the other three and the own points) adds exactly `v` to the
    /// subtree's multiset of points.
    proof fn lemma_rebuild_one(mid: QuadTreeNode, t: QuadTreeNode, v: NodeView, which: int)
        requires
            t.nodes == mid.nodes,
            ({
                if which == 0 {
                    Self::opt_points(t.northeast).to_multiset() == Self::opt_points(
                        mid.northeast,
                    ).to_multiset().insert(v)
                } else {
                    Self::opt_points(t.northeast) == Self::opt_points(mid.northeast)
                }
            }),
            ({
                if which == 1 {
                    Self::opt_points(t.northwest).to_multiset() == Self::opt_points(
                        mid.northwest,
                    ).to_multiset().insert(v)
                } else {
                    Self::opt_points(t.northwest) == Self::opt_points(mid.northwest)
                }
            }),
            ({
                if which == 2 {
                    Self::opt_points(t.southeast).to_multiset() == Self::opt_points(
                        mid.southeast,
                    ).to_multiset().insert(v)
                } else {
                    Self::opt_points(t.southeast) == Self::opt_points(mid.southeast)
                }
            }),
            ({
                if which == 3 {
                    Self::opt_points(t.southwest).to_multiset() == Self::opt_points(
                        mid.southwest,
                    ).to_multiset().insert(v)
                } else {
                    Self::opt_points(t.southwest) == Self::opt_points(mid.southwest)
                }
            }),
            0 <= which < 4,
        ensures
            t.points().to_multiset() == mid.points().to_multiset().insert(v),
    {
        Self::lemma_points_ms(t);
        Self::lemma_points_ms(mid);
        assert(t.points().to_multiset() =~= mid.points().to_multiset().insert(v));
    }

    /// Inserts a point into the subtree. Returns the rebuilt subtree and
    /// whether the point was taken, which is exactly
    /// [`QuadTreeNode::accepts`]. On success the subtree's points grow by
    /// the one new point; on failure they are unchanged (though a full
    /// node may have subdivided on the way).
    fn insert_node(self, node: SpatialNode) -> (res: (Self, bool))
        requires
            self.wf(),
        ensures
            res.0.wf(),
            res.0.bounds == self.bounds,
            res.0.capacity == self.capacity,
            res.1 == self.accepts(node@.position),
            res.1 ==> res.0.points().to_multiset() == self.points().to_multiset().insert(node@),
            !res.1 ==> res.0.points() == self.points(),
        decreases self.height(), self.fill_rank(),
    {
        let ghost pre = self;
        let ghost v = node@;
        broadcast use vstd::seq_lib::group_to_multiset_ensures;

        if !self.bounds.contains(&node.position) {
            return (self, false);
        }
        if self.nodes.len() < self.capacity {
            let mut s = self;
            s.nodes.push(node);
            proof {
                assert(!pre.divided);
                assert(views(s.nodes@) =~= views(pre.nodes@).push(v));
                assert(s.points() =~= pre.points().push(v));
                assert(s.points().to_multiset() =~= pre.points().to_multiset().insert(v));
                assert(s.wf());
            }
            return (s, true);
        }

        let s = if self.divided {
            self
        } else {
            self.subdivided()
        };
        let ghost mid = s;
        let ghost p = v.position;
        let QuadTreeNode {
            bounds,
            capacity,
            nodes,
            divided,
            northeast,
            northwest,
            southeast,
            southwest,
        } = s;

        // north-east
        let (northeast, ok) = match northeast {
            Some(b) => {
                proof {
                    if pre.divided {
                        assert(Self::opt_height(pre.northeast) == (*b).height());
                        assert(pre.height() > (*b).height());
                    } else {
                        Self::lemma_fresh_leaf(*b, p);
                        assert(pre.height() == 1);
                    }
                }
                let (t, ok) = (*b).insert_node(clone_node(&node));
                (Some(Box::new(t)), ok)
            },
            None => {
                proof {
                    assert(false);
                }
                (None, false)
            },
        };
        let ghost after_ne = QuadTreeNode {
            northeast,
            ..mid
        };
        proof {
            assert(Self::opt_points(after_ne.northwest) == Self::opt_points(mid.northwest));
            assert(after_ne.wf());
            if ok {
                Self::lemma_rebuild_one(mid, after_ne, v, 0);
                assert(pre.accepts(p));
            } else {
                assert(after_ne.points() =~= mid.points());
            }
        }
        if ok {
            let t = QuadTreeNode {
                bounds,
                capacity,
                nodes,
                divided,
                northeast,
                northwest,
                southeast,
                southwest,
            };
            proof {
                assert(t == after_ne);
            }
            return (t, true);
        }

        // north-west
        let (northwest, ok) = match northwest {
            Some(b) => {
                proof {
                    if pre.divided {
                        assert(Self::opt_height(pre.northwest) == (*b).height());
                        assert(pre.height() > (*b).height());
                    } else {
                        Self::lemma_fresh_leaf(*b, p);
                        assert(pre.height() == 1);
                    }
                }
                let (t, ok) = (*b).insert_node(clone_node(&node));
                (Some(Box::new(t)), ok)
            },
            None => {
                proof {
                    assert(false);
                }
                (None, false)
            },
        };
        let ghost after_nw = QuadTreeNode {
            northeast,
            northwest,
            ..mid
        };
        proof {
            assert(after_nw.wf());
            if ok {
                Self::lemma_rebuild_one(after_ne, after_nw, v, 1);
                assert(pre.accepts(p));
            } else {
                assert(after_nw.points() =~= mid.points());
            }
        }
        if ok {
            let t = QuadTreeNode {
                bounds,
                capacity,
                nodes,
                divided,
                northeast,
                northwest,
                southeast,
                southwest,
            };
            proof {
                assert(t == after_nw);
                assert(after_ne.points() == mid.points());
            }
            return (t, true);
        }

        // south-east
        let (southeast, ok) = match southeast {
            Some(b) => {
                proof {
                    if pre.divided {
                        assert(Self::opt_height(pre.southeast) == (*b).height());
                        assert(pre.height() > (*b).height());
                    } else {
                        Self::lemma_fresh_leaf(*b, p);
                        assert(pre.height() == 1);
                    }
                }
                let (t, ok) = (*b).insert_node(clone_node(&node));
                (Some(Box::new(t)), ok)
            },
            None => {
                proof {
                    assert(false);
                }
                (None, false)
            },
        };
        let ghost after_se = QuadTreeNode {
            northeast,
            northwest,
            southeast,
            ..mid
        };
        proof {
            assert(after_se.wf());
            if ok {
                Self::lemma_rebuild_one(after_nw, after_se, v, 2);
                assert(pre.accepts(p));
            } else {
                assert(after_se.points() =~= mid.points());
            }
        }
        if ok {
            let t = QuadTreeNode {
                bounds,
                capacity,
                nodes,
                divided,
                northeast,
                northwest,
                southeast,
                southwest,
            };
            proof {
                assert(t == after_se);
                assert(after_nw.points() == mid.points());
            }
            return (t, true);
        }

        // south-west
        let (southwest, ok) = match southwest {
            Some(b) => {
                proof {
                    if pre.divided {
                        assert(Self::opt_height(pre.southwest) == (*b).height());
                        assert(pre.height() > (*b).height());
                    } else {
                        Self::lemma_fresh_leaf(*b, p);
                        assert(pre.height() == 1);
                    }
                }
                let (t, ok) = (*b).insert_node(node);
                (Some(Box::new(t)), ok)
            },
            None => {
                proof {
                    assert(false);
                }
                (None, false)
            },
        };
        let t = QuadTreeNode {
            bounds,
            capacity,
            nodes,
            divided,
            northeast,
            northwest,
            southeast,
            southwest,
        };
        proof {
            assert(t.wf());
            if ok {
                Self::lemma_rebuild_one(after_se, t, v, 3);
                assert(after_se.points() == mid.points());
                assert(pre.accepts(p));
            } else {
                assert(t.points() =~= mid.points());
                assert(!pre.accepts(p));
            }
        }
        (t, ok)
    }

    /// Every point of a well-formed subtree lies within the subtree's bounds.
    proof fn lemma_points_in_bounds(t: QuadTreeNode)
        requires
            t.wf(),
        ensures
            forall|i: int|
                0 <= i < t.points().len() ==> t.bounds.spec_contains(
                    (#[trigger] t.points()[i]).position,
                ),
        decreases t,
    {
        if t.divided {
            lemma_quadrants_wf(t.bounds);
            Self::lemma_opt_points_in_bounds(t.northeast, t.bounds);
            Self::lemma_opt_points_in_bounds(t.northwest, t.bounds);
            Self::lemma_opt_points_in_bounds(t.southeast, t.bounds);
            Self::lemma_opt_points_in_bounds(t.southwest, t.bounds);
        } else {
            Self::lemma_opt_points_in_bounds(t.northeast, t.bounds);
            Self::lemma_opt_points_in_bounds(t.northwest, t.bounds);
            Self::lemma_opt_points_in_bounds(t.southeast, t.bounds);
            Self::lemma_opt_points_in_bounds(t.southwest, t.bounds);
        }
        let a = views(t.nodes@);
        let b = Self::opt_points(t.northeast);
        let c = Self::opt_points(t.northwest);
        let d = Self::opt_points(t.southeast);
        let e = Self::opt_points(t.southwest);
        assert(t.points() == a + b + c + d + e);
        assert forall|i: int| 0 <= i < t.points().len() implies t.bounds.spec_contains(
            (#[trigger] t.points()[i]).position,
        ) by {
            let pts = t.points();
            if i < a.len() {
                assert(pts[i] == a[i]);
                assert(a[i] == t.nodes@[i]@);
            } else if i < a.len() + b.len() {
                assert(pts[i] == b[i - a.len()]);
            } else if i < a.len() + b.len() + c.len() {
                assert(pts[i] == c[i - a.len() - b.len()]);
            } else if i < a.len() + b.len() + c.len() + d.len() {
                assert(pts[i] == d[i - a.len() - b.len() - c.len()]);
            } else {
                assert(pts[i] == e[i - a.len() - b.len() - c.len() - d.len()]);
            }
        }
    }

    proof fn lemma_opt_points_in_bounds(c: Option<Box<QuadTreeNode>>, b: BoundingBox)
        requires
            match c {
                Some(n) => n.wf() && (forall|p: Point|
                    n.bounds.spec_contains(p) ==> b.spec_contains(p)),
                None => true,
            },
        ensures
            forall|i: int|
                0 <= i < Self::opt_points(c).len() ==> b.spec_contains(
                    (#[trigger] Self::opt_points(c)[i]).position,
                ),
        decreases c,
    {
        match c {
            Some(n) => {
                Self::lemma_points_in_bounds(*n);
                assert(Self::opt_points(c) == n.points());
                assert forall|i: int| 0 <= i < Self::opt_points(c).len() implies b.spec_contains(
                    (#[trigger] Self::opt_points(c)[i]).position,
                ) by {
                    assert(n.bounds.spec_contains(n.points()[i].position));
                }
            },
            None => {},
        }
    }

    /// Collects into `found` every point of the subtree that the query box
    /// contains, pruning subtrees whose bounds do not meet the box; the
    /// matches arrive in tree order, after what `found` already held.
    fn query(&self, range: &BoundingBox, found: &mut Vec<SpatialNode>)
        requires
            self.wf(),
        ensures
            views(final(found)@) == views(old(found)@) + self.points().filter(in_box(*range)),
        decreases self.height(),
    {
        let ghost pred = in_box(*range);
        broadcast use vstd::seq_lib::group_seq_properties;

        if !self.bounds.intersects(range) {
            proof {
                Self::lemma_points_in_bounds(*self);
                assert forall|i: int| 0 <= i < self.points().len() implies !pred(
                    self.points()[i],
                ) by {
                    let q = self.points()[i].position;
                    assert(self.bounds.spec_contains(q));
                }
                lemma_filter_none(self.points(), pred);
                assert(views(found@) =~= views(found@) + self.points().filter(pred));
            }
            return ;
        }

        let ghost found0 = views(found@);
        let own = &self.nodes;
        let mut i: usize = 0;
        while i < own.len()
            invariant
                self.wf(),
                own == self.nodes,
                i <= own@.len(),
                views(found@) == found0 + views(own@.take(i as int)).filter(pred),
                pred == in_box(*range),
            decreases own@.len() - i,
        {
            let n = &own[i];
            let ghost prev = views(found@);
            proof {
                assert(own@.take(i + 1) =~= own@.take(i as int).push(own@[i as int]));
                assert(views(own@.take(i + 1)) =~= views(own@.take(i as int)).push(n@));
                lemma_filter_push(views(own@.take(i as int)), n@, pred);
            }
            if range.contains(&n.position) {
                let cn = clone_node(n);
                found.push(cn);
                proof {
                    assert(views(found@) =~= prev.push(n@));
                    assert(prev.push(n@) =~= found0 + views(own@.take(i + 1)).filter(pred));
                }
            } else {
                proof {
                    assert(views(found@) =~= found0 + views(own@.take(i + 1)).filter(pred));
                }
            }
            i += 1;
        }
        proof {
            assert(own@.take(own@.len() as int) =~= own@);
        }

        if self.divided {
            let ghost base = found0 + views(self.nodes@).filter(pred);
            match &self.northeast {
                Some(b) => {
                    proof {
                        assert(Self::opt_height(self.northeast) == (**b).height());
                    }
                    b.query(range, found);
                },
                None => {
                    proof {
                        assert(false);
                    }
                },
            }
            match &self.northwest {
                Some(b) => {
                    proof {
                        assert(Self::opt_height(self.northwest) == (**b).height());
                    }
                    b.query(range, found);
                },
                None => {
                    proof {
                        assert(false);
                    }
                },
            }
            match &self.southeast {
                Some(b) => {
                    proof {
                        assert(Self::opt_height(self.southeast) == (**b).height());
                    }
                    b.query(range, found);
                },
                None => {
                    proof {
                        assert(false);
                    }
                },
            }
            match &self.southwest {
                Some(b) => {
                    proof {
                        assert(Self::opt_height(self.southwest) == (**b).height());
                    }
                    b.query(range, found);
                },
                None => {
                    proof {
                        assert(false);
                    }
                },
            }
            proof {
                Self::lemma_filter_parts(*self, pred);
            }
        } else {
            proof {
                assert(self.points() =~= views(self.nodes@));
            }
        }
    }

    /// Collects into `found` every point of the subtree whose Euclidean
    /// distance from `center` is at most `radius`, by the exact
    /// squared-distance comparison; prunes against the bounding square of
    /// the search circle.
    fn query_radius_node(&self, center: &Point, radius: i64, found: &mut Vec<SpatialNode>)
        requires
            self.wf(),
            center.wf(),
            0 <= radius <= MAX_COORD,
        ensures
            views(final(found)@) == views(old(found)@) + self.points().filter(
                in_radius(*center, radius),
            ),
        decreases self.height(),
    {
        let ghost pred = in_radius(*center, radius);
        broadcast use vstd::seq_lib::group_seq_properties;

        let range = BoundingBox {
            min_x: center.x - radius,
            min_y: center.y - radius,
            max_x: center.x + radius,
            max_y: center.y + radius,
        };

        if !self.bounds.intersects(&range) {
            proof {
                Self::lemma_points_in_bounds(*self);
                assert forall|i: int| 0 <= i < self.points().len() implies !pred(
                    self.points()[i],
                ) by {
                    let q = self.points()[i].position;
                    assert(self.bounds.spec_contains(q));
                    if pred(self.points()[i]) {
                        lemma_circle_in_square(*center, radius, q);
                    }
                }
                lemma_filter_none(self.points(), pred);
                assert(views(found@) =~= views(found@) + self.points().filter(pred));
            }
            return ;
        }

        let ghost found0 = views(found@);
        let own = &self.nodes;
        let mut i: usize = 0;
        while i < own.len()
            invariant
                self.wf(),
                center.wf(),
                0 <= radius <= MAX_COORD,
                own == self.nodes,
                i <= own@.len(),
                views(found@) == found0 + views(own@.take(i as int)).filter(pred),
                pred == in_radius(*center, radius),
            decreases own@.len() - i,
        {
            let n = &own[i];
            let ghost prev = views(found@);
            proof {
                assert(own@.take(i + 1) =~= own@.take(i as int).push(own@[i as int]));
                assert(views(own@.take(i + 1)) =~= views(own@.take(i as int)).push(n@));
                lemma_filter_push(views(own@.take(i as int)), n@, pred);
                assert(self.bounds.spec_contains(n@.position));
            }
            let dx = n.position.x as i128 - center.x as i128;
            let dy = n.position.y as i128 - center.y as i128;
            proof {
                assert(self.bounds.wf());
                assert(-2 * (MAX_COORD as int) <= dx <= 2 * (MAX_COORD as int));
                assert(-2 * (MAX_COORD as int) <= dy <= 2 * (MAX_COORD as int));
                lemma_sq_le(dx as int, 2 * (MAX_COORD as int));
                lemma_sq_le(dy as int, 2 * (MAX_COORD as int));
                lemma_sq_le(radius as int, MAX_COORD as int);
            }
            let rr = radius as i128 * radius as i128;
            if dx * dx + dy * dy <= rr {
                proof {
                    assert(dx * dx + dy * dy == dist_sq(n@.position, *center));
                }
                let cn = clone_node(n);
                found.push(cn);
                proof {
                    assert(views(found@) =~= prev.push(n@));
                    assert(prev.push(n@) =~= found0 + views(own@.take(i + 1)).filter(pred));
                }
            } else {
                proof {
                    assert(dx * dx + dy * dy == dist_sq(n@.position, *center));
                    assert(views(found@) =~= found0 + views(own@.take(i + 1)).filter(pred));
                }
            }
            i += 1;
        }
        proof {
            assert(own@.take(own@.len() as int) =~= own@);
        }

        if self.divided {
            match &self.northeast {
                Some(b) => {
                    proof {
                        assert(Self::opt_height(self.northeast) == (**b).height());
                    }
                    b.query_radius_node(center, radius, found);
                },
                None => {
                    proof {
                        assert(false);
                    }
                },
            }
            match &self.northwest {
                Some(b) => {
                    proof {
                        assert(Self::opt_height(self.northwest) == (**b).height());
                    }
                    b.query_radius_node(center, radius, found);
                },
                None => {
                    proof {
                        assert(false);
                    }
                },
            }
            match &self.southeast {
                Some(b) => {
                    proof {
                        assert(Self::opt_height(self.southeast) == (**b).height());
                    }
                    b.query_radius_node(center, radius, found);
                },
                None => {
                    proof {
                        assert(false);
                    }
                },
            }
            match &self.southwest {
                Some(b) => {
                    proof {
                        assert(Self::opt_height(self.southwest) == (**b).height());
                    }
                    b.query_radius_node(center, radius, found);
                },
                None => {
                    proof {
                        assert(false);
                    }
                },
            }
            proof {
                Self::lemma_filter_parts(*self, pred);
            }
        } else {
            proof {
                assert(self.points() =~= views(self.nodes@));
            }
        }
    }

    /// Filtering the subtree's points part by part equals filtering them
    /// as one sequence.
    proof fn lemma_filter_parts(t: QuadTreeNode, pred: spec_fn(NodeView) -> bool)
        ensures
            t.points().filter(pred) == views(t.nodes@).filter(pred) + Self::opt_points(
                t.northeast,
            ).filter(pred) + Self::opt_points(t.northwest).filter(pred) + Self::opt_points(
                t.southeast,
            ).filter(pred) + Self::opt_points(t.southwest).filter(pred),
    {
        let a = views(t.nodes@);
        let b = Self::opt_points(t.northeast);
        let c = Self::opt_points(t.northwest);
        let d = Self::opt_points(t.southeast);
        let e = Self::opt_points(t.southwest);
        Seq::filter_distributes_over_add(a + b + c + d, e, pred);
        Seq::filter_distributes_over_add(a + b + c, d, pred);
        Seq::filter_distributes_over_add(a + b, c, pred);
        Seq::filter_distributes_over_add(a, b, pred);
    }

    /// A present child that is a fresh, empty, undivided leaf over `b`.
    spec fn child_is_fresh(c: Option<Box<QuadTreeNode>>, b: BoundingBox, cap: usize) -> bool {
        match c {
            Some(n) => {
                &&& n.bounds == b
                &&& n.capacity == cap
                &&& n.nodes@.len() == 0
                &&& !n.divided
                &&& n.northeast is None
                &&& n.northwest is None
                &&& n.southeast is None
                &&& n.southwest is None
            },
            None => false,
        }
    }
}

/// The id-to-position table as a mathematical map; a later entry for the
/// same id wins.
pub open spec fn lookup_map(s: Seq<(String, Point)>) -> Map<Seq<char>, Point>
    decreases s.len(),
{
    if s.len() == 0 {
        Map::empty()
    } else {
        lookup_map(s.drop_last()).insert(s.last().0@, s.last().1)
    }
}

/// No two entries of the table carry the same id.
pub open spec fn keys_unique(s: Seq<(String, Point)>) -> bool {
    forall|i: int, j: int| 0 <= i < j < s.len() ==> (#[trigger] s[i]).0@ != (#[trigger] s[j]).0@
}

/// An id is in the map exactly when some entry carries it.
proof fn lemma_lookup_dom(s: Seq<(String, Point)>, k: Seq<char>)
    ensures
        lookup_map(s).dom().contains(k) <==> exists|i: int| 0 <= i < s.len() && (#[trigger] s[i]).0@
            == k,
    decreases s.len(),
{
    if s.len() > 0 {
        lemma_lookup_dom(s.drop_last(), k);
        if lookup_map(s).dom().contains(k) {
            if s.last().0@ != k {
                let d = s.drop_last();
                let i = choose|i: int| 0 <= i < d.len() && (#[trigger] d[i]).0@ == k;
                assert(s[i].0@ == k);
            } else {
                assert(s[s.len() - 1].0@ == k);
            }
        }
        if exists|i: int| 0 <= i < s.len() && (#[trigger] s[i]).0@ == k {
            let i = choose|i: int| 0 <= i < s.len() && (#[trigger] s[i]).0@ == k;
            if i < s.len() - 1 {
                assert(s.drop_last()[i].0@ == k);
            }
        }
    }
}

/// With unique ids, the entry carrying an id gives the map's value at it.
proof fn lemma_lookup_index(s: Seq<(String, Point)>, i: int)
    requires
        keys_unique(s),
        0 <= i < s.len(),
    ensures
        lookup_map(s).dom().contains(s[i].0@),
        lookup_map(s)[s[i].0@] == s[i].1,
    decreases s.len(),
{
    if i < s.len() - 1 {
        assert(keys_unique(s.drop_last()));
        assert(s.drop_last()[i] == s[i]);
        lemma_lookup_index(s.drop_last(), i);
        assert(s[i].0@ != s.last().0@);
    }
}

/// With unique ids the map has exactly one element per entry.
proof fn lemma_lookup_len(s: Seq<(String, Point)>)
    requires
        keys_unique(s),
    ensures
        lookup_map(s).dom().finite(),
        lookup_map(s).dom().len() == s.len(),
    decreases s.len(),
{
    if s.len() > 0 {
        assert(keys_unique(s.drop_last()));
        lemma_lookup_len(s.drop_last());
        lemma_lookup_dom(s.drop_last(), s.last().0@);
        assert(forall|i: int|
            0 <= i < s.drop_last().len() ==> (#[trigger] s.drop_last()[i]).0@ != s.last().0@);
        assert(!lookup_map(s.drop_last()).dom().contains(s.last().0@));
    }
}

/// Finds the entry carrying `id`, if any.
fn lookup_find(v: &Vec<(String, Point)>, id: &String) -> (r: Option<usize>)
    ensures
        match r {
            Some(i) => i < v@.len() && v@[i as int].0@ == id@,
            None => forall|i: int| 0 <= i < v@.len() ==> (#[trigger] v@[i]).0@ != id@,
        },
{
    let mut i: usize = 0;
    while i < v.len()
        invariant
            i <= v@.len(),
            forall|j: int| 0 <= j < i ==> (#[trigger] v@[j]).0@ != id@,
        decreases v@.len() - i,
    {
        if v[i].0 == *id {
            return Some(i);
        }
        i += 1;
    }
    None
}

/// Inserts or overwrites the position registered under `id`.
fn lookup_upsert(v: &mut Vec<(String, Point)>, id: String, p: Point)
    requires
        keys_unique(old(v)@),
    ensures
        keys_unique(final(v)@),
        lookup_map(final(v)@) == lookup_map(old(v)@).insert(id@, p),
{
    let found = lookup_find(v, &id);
    match found {
        Some(i) => {
            let ghost pre = v@;
            v[i] = (id, p);
            proof {
                lemma_lookup_update(pre, i as int, v@[i as int]);
            }
        },
        None => {
            let ghost pre = v@;
            v.push((id, p));
            proof {
                assert(v@.drop_last() =~= pre);
            }
        },
    }
}

/// Replacing the entry at `i` by one with the same id updates the map at
/// that id alone.
proof fn lemma_lookup_update(s: Seq<(String, Point)>, i: int, e: (String, Point))
    requires
        keys_unique(s),
        0 <= i < s.len(),
        s[i].0@ == e.0@,
    ensures
        keys_unique(s.update(i, e)),
        lookup_map(s.update(i, e)) == lookup_map(s).insert(e.0@, e.1),
    decreases s.len(),
{
    let t = s.update(i, e);
    assert(keys_unique(t));
    if i == s.len() - 1 {
        assert(t.drop_last() =~= s.drop_last());
        assert(t.last() == e);
        assert(lookup_map(t) =~= lookup_map(s).insert(e.0@, e.1));
    } else {
        assert(keys_unique(s.drop_last()));
        assert(s.drop_last()[i] == s[i]);
        lemma_lookup_update(s.drop_last(), i, e);
        assert(t.drop_last() =~= s.drop_last().update(i, e));
        assert(t.last() == s.last());
        assert(s[i].0@ != s.last().0@);
        assert(lookup_map(t) =~= lookup_map(s).insert(e.0@, e.1));
    }
}

/// Facade over the quadtree: owns the root partition plus an id-to-position
/// table, and exposes insert, the three queries, position lookup and clear.
/// Ids are not deduplicated in the tree: re-inserting an id at a new
/// position leaves both points in the tree while the table keeps only the
/// latest — the behaviour the queries and `size` below are specified
/// against.
pub struct SpatialIndex {
    root: QuadTreeNode,
    node_lookup: Vec<(String, Point)>,
}

impl SpatialIndex {
    /// Every point the tree holds, in tree order.
    pub closed spec fn points(self) -> Seq<NodeView> {
        self.root.points()
    }

    /// The id-to-position table: the most recent successfully inserted
    /// position per id.
    pub closed spec fn lookup(self) -> Map<Seq<char>, Point> {
        lookup_map(self.node_lookup@)
    }

    /// The bounds the index was constructed over.
    pub closed spec fn bounds(self) -> BoundingBox {
        self.root.bounds
    }

    /// Per-node point capacity the index was constructed with.
    pub closed spec fn capacity(self) -> int {
        self.root.capacity as int
    }

    /// Whether an insertion at `p` would be accepted.
    pub closed spec fn spec_accepts(self, p: Point) -> bool {
        self.root.accepts(p)
    }

    /// Structural invariant of the whole index.
    pub closed spec fn wf(self) -> bool {
        self.root.wf() && keys_unique(self.node_lookup@)
    }

    /// Create a new spatial index with the given bounds and per-node
    /// capacity. The bounds must be ordered and in coordinate range, and
    /// the capacity positive; an index over an unordered box or with
    /// capacity zero would reject or loop on every insertion.
    pub fn new(min_x: i64, min_y: i64, max_x: i64, max_y: i64, capacity: usize) -> (r: Self)
        requires
            min_x <= max_x,
            min_y <= max_y,
            in_coord_range(min_x),
            in_coord_range(min_y),
            in_coord_range(max_x),
            in_coord_range(max_y),
            capacity >= 1,
        ensures
            r.wf(),
            r.bounds() == (BoundingBox { min_x, min_y, max_x, max_y }),
            r.capacity() == capacity,
            r.points() =~= Seq::<NodeView>::empty(),
            r.lookup() =~= Map::<Seq<char>, Point>::empty(),
    {
        let bounds = BoundingBox { min_x, min_y, max_x, max_y };
        SpatialIndex { root: QuadTreeNode::new(bounds, capacity), node_lookup: Vec::new() }
    }

    /// Insert a point under `id`. Returns whether the tree accepted it;
    /// on success the tree gains exactly this point and the table maps
    /// `id` to its position; a failed insert (point out of bounds, or on a
    /// split line every quadrant excludes) changes nothing in either.
    pub fn insert(&mut self, id: String, x: i64, y: i64, metadata: Vec<(String, String)>) -> (r:
        bool)
        requires
            old(self).wf(),
        ensures
            final(self).wf(),
            final(self).bounds() == old(self).bounds(),
            final(self).capacity() == old(self).capacity(),
            r == old(self).spec_accepts(Point { x, y }),
            r ==> final(self).points().to_multiset() == old(self).points().to_multiset().insert(
                NodeView { id: id@, position: Point { x, y }, metadata: meta_views(metadata@) },
            ),
            r ==> final(self).lookup() == old(self).lookup().insert(id@, Point { x, y }),
            !r ==> final(self).points() == old(self).points() && final(self).lookup() == old(
                self,
            ).lookup(),
    {
        let position = Point { x, y };
        let node = SpatialNode { id: id.clone(), position, metadata };
        let mut root = QuadTreeNode::new(
            BoundingBox { min_x: 0, min_y: 0, max_x: 0, max_y: 0 },
            1,
        );
        core::mem::swap(&mut self.root, &mut root);
        let (root, ok) = root.insert_node(node);
        self.root = root;
        if ok {
            lookup_upsert(&mut self.node_lookup, id, position);
        }
        ok
    }

    /// Query the points within a bounding box; results arrive in tree
    /// order (a node's own points first, then its NE, NW, SE, SW
    /// subtrees).
    pub fn query_range(&self, min_x: i64, min_y: i64, max_x: i64, max_y: i64) -> (r: Vec<
        SpatialNode,
    >)
        requires
            self.wf(),
        ensures
            views(r@) == self.points().filter(in_box(BoundingBox { min_x, min_y, max_x, max_y })),
    {
        let range = BoundingBox { min_x, min_y, max_x, max_y };
        let mut found: Vec<SpatialNode> = Vec::new();
        self.root.query(&range, &mut found);
        proof {
            assert(views(Seq::<SpatialNode>::empty()) =~= Seq::<NodeView>::empty());
        }
        found
    }

    /// Query the points within Euclidean distance `radius` of a center,
    /// by the exact squared-distance comparison.
    pub fn query_radius(&self, center_x: i64, center_y: i64, radius: i64) -> (r: Vec<SpatialNode>)
        requires
            self.wf(),
            in_coord_range(center_x),
            in_coord_range(center_y),
            0 <= radius <= MAX_COORD,
        ensures
            views(r@) == self.points().filter(
                in_radius(Point { x: center_x, y: center_y }, radius),
            ),
    {
        let center = Point { x: center_x, y: center_y };
        let mut found: Vec<SpatialNode> = Vec::new();
        self.root.query_radius_node(&center, radius, &mut found);
        proof {
            assert(views(Seq::<SpatialNode>::empty()) =~= Seq::<NodeView>::empty());
        }
        found
    }

    /// Position most recently registered for `id`, if any.
    pub fn get_position(&self, id: String) -> (r: Option<Point>)
        requires
            self.wf(),
        ensures
            r == if self.lookup().dom().contains(id@) {
                Some(self.lookup()[id@])
            } else {
                None::<Point>
            },
    {
        let found = lookup_find(&self.node_lookup, &id);
        proof {
            lemma_lookup_dom(self.node_lookup@, id@);
        }
        match found {
            Some(i) => {
                proof {
                    lemma_lookup_index(self.node_lookup@, i as int);
                }
                Some(self.node_lookup[i].1)
            },
            None => None,
        }
    }

    /// Number of distinct ids with a registered position (not the tree's
    /// point count: re-inserted ids keep their older points in the tree).
    pub fn size(&self) -> (r: usize)
        requires
            self.wf(),
        ensures
            r == self.lookup().dom().len(),
    {
        proof {
            lemma_lookup_len(self.node_lookup@);
        }
        self.node_lookup.len()
    }

    /// Discard every point: rebuild an empty root over the same bounds
    /// and capacity, and empty the table.
    pub fn clear(&mut self)
        requires
            old(self).wf(),
        ensures
            final(self).wf(),
            final(self).bounds() == old(self).bounds(),
            final(self).capacity() == old(self).capacity(),
            final(self).points() =~= Seq::<NodeView>::empty(),
            final(self).lookup() =~= Map::<Seq<char>, Point>::empty(),
    {
        let bounds = self.root.bounds;
        let capacity = self.root.capacity;
        self.root = QuadTreeNode::new(bounds, capacity);
        self.node_lookup.clear();
    }
}

/// View of freshly supplied metadata pairs.
pub open spec fn meta_views(m: Seq<(String, String)>) -> Seq<(Seq<char>, Seq<char>)> {
    Seq::new(m.len(), |i: int| (m[i].0@, m[i].1@))
}

/// Fixed search radius used by `query_nearest` to gather candidates: a
/// constant, independent of the index's extent or density, so the query
/// under-returns when fewer than `k` points lie within it.
pub const SEARCH_RADIUS: i64 = 1000;

/// Non-decreasing squared distance to `c` along the sequence.
pub open spec fn sorted_by_dist(s: Seq<NodeView>, c: Point) -> bool {
    forall|i: int, j: int|
        0 <= i <= j < s.len() ==> dist_sq((#[trigger] s[i]).position, c) <= dist_sq(
            (#[trigger] s[j]).position,
            c,
        )
}

/// Exact squared Euclidean distance between two in-range points.
fn dist_sq_exec(p: &Point, c: &Point) -> (d: i128)
    requires
        p.wf(),
        c.wf(),
    ensures
        d == dist_sq(*p, *c),
{
    let dx = p.x as i128 - c.x as i128;
    let dy = p.y as i128 - c.y as i128;
    proof {
        lemma_sq_le(dx as int, 2 * (MAX_COORD as int));
        lemma_sq_le(dy as int, 2 * (MAX_COORD as int));
    }
    dx * dx + dy * dy
}

/// Inserting into a sequence adds one occurrence to its multiset.
proof fn lemma_seq_insert_multiset<A>(s: Seq<A>, i: int, x: A)
    requires
        0 <= i <= s.len(),
    ensures
        s.insert(i, x).to_multiset() == s.to_multiset().insert(x),
{
    broadcast use vstd::seq_lib::group_to_multiset_ensures;

    assert(s.insert(i, x) =~= s.take(i).push(x) + s.skip(i));
    assert(s =~= s.take(i) + s.skip(i));
    vstd::seq_lib::lemma_multiset_commutative(s.take(i).push(x), s.skip(i));
    vstd::seq_lib::lemma_multiset_commutative(s.take(i), s.skip(i));
    assert(s.take(i).push(x).to_multiset() =~= s.take(i).to_multiset().insert(x));
    assert(s.insert(i, x).to_multiset() =~= s.to_multiset().insert(x));
}

/// Places `x` before the first stored node strictly farther from the
/// center, keeping the vector sorted by distance.
fn sorted_insert(r: &mut Vec<SpatialNode>, x: SpatialNode, center: &Point)
    requires
        center.wf(),
        x.position.wf(),
        forall|i: int| 0 <= i < old(r)@.len() ==> (#[trigger] old(r)@[i]).position.wf(),
        sorted_by_dist(views(old(r)@), *center),
    ensures
        final(r)@.len() == old(r)@.len() + 1,
        views(final(r)@).to_multiset() == views(old(r)@).to_multiset().insert(x@),
        sorted_by_dist(views(final(r)@), *center),
        forall|i: int| 0 <= i < final(r)@.len() ==> (#[trigger] final(r)@[i]).position.wf(),
{
    let ghost pre = r@;
    let key = dist_sq_exec(&x.position, center);
    let mut j: usize = 0;
    loop
        invariant_except_break
            j <= pre.len(),
            r@ == pre,
            center.wf(),
            x.position.wf(),
            key == dist_sq(x.position, *center),
            forall|i: int| 0 <= i < pre.len() ==> (#[trigger] pre[i]).position.wf(),
            forall|i: int|
                0 <= i < j ==> dist_sq((#[trigger] views(pre)[i]).position, *center) <= dist_sq(
                    x.position,
                    *center,
                ),
        ensures
            r@ == pre,
            j <= pre.len(),
            forall|i: int|
                0 <= i < j ==> dist_sq((#[trigger] views(pre)[i]).position, *center) <= dist_sq(
                    x.position,
                    *center,
                ),
            j < pre.len() ==> dist_sq(views(pre)[j as int].position, *center) > dist_sq(
                x.position,
                *center,
            ),
        decreases pre.len() - j,
    {
        if j == r.len() {
            break ;
        }
        let d = dist_sq_exec(&r[j].position, center);
        if d > key {
            proof {
                assert(views(pre)[j as int] == pre[j as int]@);
            }
            break ;
        }
        proof {
            assert(views(pre)[j as int] == pre[j as int]@);
        }
        j += 1;
    }
    r.insert(j, x);
    proof {
        assert(r@ =~= pre.insert(j as int, x));
        assert(views(r@) =~= views(pre).insert(j as int, x@));
        lemma_seq_insert_multiset(views(pre), j as int, x@);
        let t = views(r@);
        let s = views(pre);
        assert forall|a: int, b: int|
            0 <= a <= b < t.len() implies dist_sq((#[trigger] t[a]).position, *center) <= dist_sq(
            (#[trigger] t[b]).position,
            *center,
        ) by {
            if a < j && b < j {
                assert(t[a] == s[a] && t[b] == s[b]);
            } else if a < j && b == j {
                assert(t[a] == s[a] && t[b] == x@);
            } else if a < j && b > j {
                assert(t[a] == s[a] && t[b] == s[b - 1]);
            } else if a == j && b == j {
            } else if a == j && b > j {
                assert(t[a] == x@ && t[b] == s[b - 1]);
                assert(dist_sq(s[j as int].position, *center) <= dist_sq(
                    s[b - 1].position,
                    *center,
                ));
            } else {
                assert(t[a] == s[a - 1] && t[b] == s[b - 1]);
            }
        }
        assert forall|i: int| 0 <= i < r@.len() implies (#[trigger] r@[i]).position.wf() by {
            if i < j {
                assert(r@[i] == pre[i]);
            } else if i == j {
            } else {
                assert(r@[i] == pre[i - 1]);
            }
        }
    }
}

/// Sorts stored nodes by ascending squared distance to the center,
/// keeping exactly the same points.
fn sort_by_dist(v: Vec<SpatialNode>, center: &Point) -> (r: Vec<SpatialNode>)
    requires
        center.wf(),
        forall|i: int| 0 <= i < v@.len() ==> (#[trigger] v@[i]).position.wf(),
    ensures
        r@.len() == v@.len(),
        views(r@).to_multiset() == views(v@).to_multiset(),
        sorted_by_dist(views(r@), *center),
        forall|i: int| 0 <= i < r@.len() ==> (#[trigger] r@[i]).position.wf(),
{
    broadcast use vstd::seq_lib::group_to_multiset_ensures;

    let mut out: Vec<SpatialNode> = Vec::new();
    let mut i: usize = 0;
    while i < v.len()
        invariant
            i <= v@.len(),
            center.wf(),
            forall|k: int| 0 <= k < v@.len() ==> (#[trigger] v@[k]).position.wf(),
            out@.len() == i,
            views(out@).to_multiset() == views(v@.take(i as int)).to_multiset(),
            sorted_by_dist(views(out@), *center),
            forall|k: int| 0 <= k < out@.len() ==> (#[trigger] out@[k]).position.wf(),
        decreases v@.len() - i,
    {
        let n = clone_node(&v[i]);
        let ghost prev = views(out@);
        proof {
            assert(n.position == v@[i as int].position);
            assert(v@.take(i + 1) =~= v@.take(i as int).push(v@[i as int]));
            assert(views(v@.take(i + 1)) =~= views(v@.take(i as int)).push(v@[i as int]@));
        }
        sorted_insert(&mut out, n, center);
        proof {
            assert(views(out@).to_multiset() == prev.to_multiset().insert(n@));
            views(v@.take(i as int)).to_multiset_ensures();
            assert(views(v@.take(i as int)).push(v@[i as int]@).to_multiset()
                =~= views(v@.take(i as int)).to_multiset().insert(v@[i as int]@));
            assert(views(out@).to_multiset() =~= views(v@.take(i + 1)).to_multiset());
        }
        i += 1;
    }
    proof {
        assert(v@.take(v@.len() as int) =~= v@);
    }
    out
}

impl SpatialIndex {
    /// The `k` nearest stored points to `(x, y)`, among candidates within
    /// the fixed search radius [`SEARCH_RADIUS`]: candidates are gathered
    /// by a radius query, sorted by ascending distance, and cut to `k`.
    /// This is a documented approximation, not a true nearest-neighbour
    /// search: points beyond the fixed radius are never considered.
    pub fn query_nearest(&self, x: i64, y: i64, k: usize) -> (r: Vec<SpatialNode>)
        requires
            self.wf(),
            in_coord_range(x),
            in_coord_range(y),
        ensures
            ({
                let center = Point { x, y };
                let cand = self.points().filter(in_radius(center, SEARCH_RADIUS));
                &&& r@.len() == if k as int <= cand.len() {
                    k as int
                } else {
                    cand.len() as int
                }
                &&& sorted_by_dist(views(r@), center)
                &&& exists|s: Seq<NodeView>|
                    {
                        &&& s.to_multiset() == cand.to_multiset()
                        &&& sorted_by_dist(s, center)
                        &&& views(r@) == s.take(
                            if k as int <= s.len() {
                                k as int
                            } else {
                                s.len() as int
                            },
                        )
                    }
            }),
    {
        broadcast use vstd::seq_lib::group_to_multiset_ensures;

        let center = Point { x, y };
        let ghost cand = self.points().filter(in_radius(center, SEARCH_RADIUS));
        let all = self.query_radius(x, y, SEARCH_RADIUS);
        proof {
            QuadTreeNode::lemma_points_in_bounds(self.root);
            assert forall|i: int| 0 <= i < all@.len() implies (#[trigger] all@[i]).position.wf() by {
                assert(views(all@)[i] == all@[i]@);
                assert(cand.contains(views(all@)[i]));
                lemma_filter_contains_iff(
                    self.points(),
                    in_radius(center, SEARCH_RADIUS),
                    views(all@)[i],
                );
                let j = choose|j: int|
                    0 <= j < self.points().len() && self.points()[j] == views(all@)[i];
                assert(self.bounds().spec_contains(all@[i]@.position));
            }
        }
        let sorted = sort_by_dist(all, &center);
        let ghost witness = views(sorted@);
        let mut out = sorted;
        out.truncate(k);
        proof {
            assert(witness.to_multiset().len() == cand.to_multiset().len());
            assert(witness.len() == cand.len());
            let m = if k as int <= witness.len() {
                k as int
            } else {
                witness.len() as int
            };
            assert(out@ =~= if k as int <= witness.len() {
                sorted@.take(k as int)
            } else {
                sorted@
            });
            assert(views(out@) =~= witness.take(m));
        }
        out
    }
}

/// An element is in a filtered sequence exactly when it is in the
/// original and satisfies the predicate.
proof fn lemma_filter_contains_iff<A>(s: Seq<A>, pred: spec_fn(A) -> bool, x: A)
    ensures
        s.filter(pred).contains(x) <==> s.contains(x) && pred(x),
    decreases s.len(),
{
    reveal(Seq::filter);
    if s.len() > 0 {
        lemma_filter_contains_iff(s.drop_last(), pred, x);
        assert(s.contains(x) <==> s.drop_last().contains(x) || s.last() == x) by {
            if s.contains(x) {
                let i = choose|i: int| 0 <= i < s.len() && s[i] == x;
                if i < s.len() - 1 {
                    assert(s.drop_last()[i] == x);
                }
            }
            if s.drop_last().contains(x) {
                let i = choose|i: int| 0 <= i < s.drop_last().len() && s.drop_last()[i] == x;
                assert(s[i] == x);
            }
        }
        let f = s.filter(pred);
        let fd = s.drop_last().filter(pred);
        if pred(s.last()) {
            assert(f == fd.push(s.last()));
            assert(f.contains(x) <==> fd.contains(x) || s.last() == x) by {
                if f.contains(x) {
                    let i = choose|i: int| 0 <= i < f.len() && f[i] == x;
                    if i < f.len() - 1 {
                        assert(fd[i] == x);
                    }
                }
                if fd.contains(x) {
                    let i = choose|i: int| 0 <= i < fd.len() && fd[i] == x;
                    assert(f[i] == x);
                }
            }
        }
    }
}

/// Each element occurs in a filtered sequence exactly as often as in the
/// original if it satisfies the predicate, and never otherwise.
proof fn lemma_filter_count<A>(s: Seq<A>, pred: spec_fn(A) -> bool, x: A)
    ensures
        s.filter(pred).to_multiset().count(x) == if pred(x) {
            s.to_multiset().count(x)
        } else {
            0
        },
    decreases s.len(),
{
    broadcast use vstd::seq_lib::group_to_multiset_ensures;

    reveal(Seq::filter);
    if s.len() == 0 {
        assert(s.to_multiset().count(x) == 0);
        assert(s.filter(pred).to_multiset().count(x) == 0);
    } else {
        lemma_filter_count(s.drop_last(), pred, x);
        assert(s =~= s.drop_last().push(s.last()));
        assert(s.to_multiset() == s.drop_last().push(s.last()).to_multiset());
        assert(s.drop_last().push(s.last()).to_multiset() =~= s.drop_last().to_multiset().insert(
            s.last(),
        ));
        if pred(s.last()) {
            assert(s.filter(pred) == s.drop_last().filter(pred).push(s.last()));
            assert(s.filter(pred).to_multiset() =~= s.drop_last().filter(
                pred,
            ).to_multiset().insert(s.last()));
        } else {
            assert(s.filter(pred) == s.drop_last().filter(pred));
        }
    }
}

/// Law: a point appears among the results of a range query exactly when
/// the index holds it and the query box contains its position — whatever
/// shape subdivision has given the tree — and it appears exactly as many
/// times as the index holds it, so subdivision neither loses nor
/// duplicates points.
pub proof fn lemma_range_query_membership(idx: SpatialIndex, b: BoundingBox, nv: NodeView)
    ensures
        idx.points().filter(in_box(b)).contains(nv) <==> idx.points().contains(nv)
            && b.spec_contains(nv.position),
        idx.points().filter(in_box(b)).to_multiset().count(nv) == if b.spec_contains(nv.position) {
            idx.points().to_multiset().count(nv)
        } else {
            0
        },
{
    lemma_filter_contains_iff(idx.points(), in_box(b), nv);
    lemma_filter_count(idx.points(), in_box(b), nv);
}

/// Law: a range query over the singleton box at an inserted point's exact
/// position returns that point (reflexive, closed-interval containment).
pub proof fn lemma_exact_box_hits(idx: SpatialIndex, nv: NodeView)
    requires
        idx.points().contains(nv),
    ensures
        ({
            let b = BoundingBox {
                min_x: nv.position.x,
                min_y: nv.position.y,
                max_x: nv.position.x,
                max_y: nv.position.y,
            };
            idx.points().filter(in_box(b)).contains(nv)
        }),
{
    let b = BoundingBox {
        min_x: nv.position.x,
        min_y: nv.position.y,
        max_x: nv.position.x,
        max_y: nv.position.y,
    };
    lemma_filter_contains_iff(idx.points(), in_box(b), nv);
}

/// Law: a point appears among the results of a radius query exactly when
/// the index holds it and its Euclidean distance from the center is at
/// most `r` — the squared-distance comparison `dist_sq <= r * r` states
/// exactly that, with no rounding, on the integer grid — and exactly as
/// many times as the index holds it.
pub proof fn lemma_radius_query_membership(idx: SpatialIndex, c: Point, r: i64, nv: NodeView)
    ensures
        idx.points().filter(in_radius(c, r)).contains(nv) <==> idx.points().contains(nv)
            && dist_sq(nv.position, c) <= r * r,
        idx.points().filter(in_radius(c, r)).to_multiset().count(nv) == if dist_sq(nv.position, c)
            <= r * r {
            idx.points().to_multiset().count(nv)
        } else {
            0
        },
{
    lemma_filter_contains_iff(idx.points(), in_radius(c, r), nv);
    lemma_filter_count(idx.points(), in_radius(c, r), nv);
}

impl QuadTreeNode {
    /// The capacity discipline, node by node: no node holds more than
    /// `capacity` points directly, and a divided node holds exactly
    /// `capacity` — it divided the moment a point beyond capacity
    /// arrived, and its own points froze.
    spec fn cap_ok(self) -> bool
        decreases self,
    {
        &&& self.nodes@.len() <= self.capacity
        &&& (self.divided ==> self.nodes@.len() == self.capacity)
        &&& Self::opt_cap_ok(self.northeast)
        &&& Self::opt_cap_ok(self.northwest)
        &&& Self::opt_cap_ok(self.southeast)
        &&& Self::opt_cap_ok(self.southwest)
    }

    spec fn opt_cap_ok(c: Option<Box<QuadTreeNode>>) -> bool
        decreases c,
    {
        match c {
            Some(n) => n.cap_ok(),
            None => true,
        }
    }

    proof fn lemma_wf_cap_ok(t: QuadTreeNode)
        requires
            t.wf(),
        ensures
            t.cap_ok(),
        decreases t,
    {
        Self::lemma_opt_wf_cap_ok(t.northeast);
        Self::lemma_opt_wf_cap_ok(t.northwest);
        Self::lemma_opt_wf_cap_ok(t.southeast);
        Self::lemma_opt_wf_cap_ok(t.southwest);
    }

    proof fn lemma_opt_wf_cap_ok(c: Option<Box<QuadTreeNode>>)
        requires
            match c {
                Some(n) => n.wf(),
                None => true,
            },
        ensures
            Self::opt_cap_ok(c),
        decreases c,
    {
        match c {
            Some(n) => {
                Self::lemma_wf_cap_ok(*n);
            },
            None => {},
        }
    }
}

impl SpatialIndex {
    /// Whether every partition node of the index obeys the capacity
    /// discipline: an undivided node holds at most `capacity` points
    /// directly, and a node is divided exactly when it reached capacity
    /// and a further point arrived, its own points frozen from then on.
    pub closed spec fn capacity_invariant(self) -> bool {
        self.root.cap_ok()
    }

    /// Law: a well-formed index — as every operation here keeps it —
    /// satisfies the capacity invariant in every node of its tree.
    pub proof fn lemma_capacity_invariant(self)
        requires
            self.wf(),
        ensures
            self.capacity_invariant(),
    {
        QuadTreeNode::lemma_wf_cap_ok(self.root);
    }
}

impl QuadTreeNode {
    /// A node's directly held points are among its subtree's points.
    proof fn lemma_own_len_le_points(t: QuadTreeNode)
        ensures
            t.nodes@.len() <= t.points().len(),
    {
        assert(views(t.nodes@).len() == t.nodes@.len());
    }

    /// A well-formed subtree with room among its own points accepts
    /// exactly the points its bounds contain.
    proof fn lemma_accepts_with_room(t: QuadTreeNode, p: Point)
        requires
            t.wf(),
            t.nodes@.len() < t.capacity,
        ensures
            t.accepts(p) == t.bounds.spec_contains(p),
    {
    }

    /// A well-formed empty subtree accepts exactly the points its
    /// bounds contain.
    proof fn lemma_empty_accepts(t: QuadTreeNode, p: Point)
        requires
            t.wf(),
            t.points().len() == 0,
        ensures
            t.accepts(p) == t.bounds.spec_contains(p),
    {
        Self::lemma_own_len_le_points(t);
        Self::lemma_accepts_with_room(t, p);
    }
}

/// Law: while the index holds fewer points than its per-node capacity,
/// an insertion is accepted exactly when the index bounds contain the
/// point; in particular a fresh index accepts every point of its
/// bounds, the closed max corner included.
pub proof fn lemma_accepts_below_capacity(idx: SpatialIndex, p: Point)
    requires
        idx.wf(),
        idx.points().len() < idx.capacity(),
    ensures
        idx.spec_accepts(p) <==> idx.bounds().spec_contains(p),
{
    QuadTreeNode::lemma_own_len_le_points(idx.root);
    QuadTreeNode::lemma_accepts_with_room(idx.root, p);
}

/// Law: holding exactly `capacity` points, the index accepts a point
/// exactly when its bounds and one of their four quadrants contain it:
/// the insertion beyond capacity succeeds by subdividing, unless
/// integer halving leaves the point on a split line every quadrant
/// excludes.
pub proof fn lemma_accepts_at_capacity(idx: SpatialIndex, p: Point)
    requires
        idx.wf(),
        idx.points().len() == idx.capacity(),
    ensures
        idx.spec_accepts(p) <==> (idx.bounds().spec_contains(p) && (
        idx.bounds().quad_ne().spec_contains(p) || idx.bounds().quad_nw().spec_contains(p)
            || idx.bounds().quad_se().spec_contains(p) || idx.bounds().quad_sw().spec_contains(
            p,
        ))),
{
    let t = idx.root;
    QuadTreeNode::lemma_own_len_le_points(t);
    if t.divided {
        // A divided node owns exactly `capacity` points, so at exactly
        // `capacity` in the whole subtree all four children are empty,
        // and each accepts exactly its quadrant.
        assert(t.points().len() == views(t.nodes@).len() + QuadTreeNode::opt_points(
            t.northeast,
        ).len() + QuadTreeNode::opt_points(t.northwest).len() + QuadTreeNode::opt_points(
            t.southeast,
        ).len() + QuadTreeNode::opt_points(t.southwest).len());
        match t.northeast {
            Some(n) => {
                QuadTreeNode::lemma_empty_accepts(*n, p);
            },
            None => {},
        }
        match t.northwest {
            Some(n) => {
                QuadTreeNode::lemma_empty_accepts(*n, p);
            },
            None => {},
        }
        match t.southeast {
            Some(n) => {
                QuadTreeNode::lemma_empty_accepts(*n, p);
            },
            None => {},
        }
        match t.southwest {
            Some(n) => {
                QuadTreeNode::lemma_empty_accepts(*n, p);
            },
            None => {},
        }
    } else {
        assert(t.points() =~= views(t.nodes@));
        assert(t.nodes@.len() == t.capacity);
    }
}

/// Law: once the index holds no points — as after `clear` — every range
/// or radius query returns the empty sequence, whatever its region.
pub proof fn lemma_empty_query(idx: SpatialIndex, pred: spec_fn(NodeView) -> bool)
    requires
        idx.points().len() == 0,
    ensures
        idx.points().filter(pred) =~= Seq::<NodeView>::empty(),
{
    lemma_filter_none(idx.points(), pred);
}

} // verus!
