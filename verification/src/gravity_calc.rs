//! Barnes-Hut gravity: adaptive quad-tree decomposition and softened
//! force evaluation.
//!
//! The executable functions mirror a spec-level model exactly:
//! [`build_node`] says which tree a point set produces, and
//! [`accel_model`] says which acceleration a traversal of that tree
//! returns.  All arithmetic is fixed-point with truncating division, so
//! both are closed-form deterministic functions.

use vstd::prelude::*;
use vstd::math::abs;
use crate::fixed::{
    clamp_lim, sqrt_floor, tdiv, tdiv_i128, tdiv_i64, sat_limit, isqrt_u128, lemma_tdiv_bound,
    lemma_tdiv_in_range, lemma_sqrt_floor_unique, LIMIT, SCALE, SCALE2,
};
use crate::mass::MassPoint;
use crate::tree::TreeNode;
use crate::vector::Vec2;

verus! {

/// Bound on a node's geometric center and extent; a child's center moves
/// from its parent's by a quarter extent while the extent halves, so
/// `|center| + extent` never grows and stays below this (2^52).
pub const GEOM_LIMIT: i64 = 0x10_0000_0000_0000;

/// Depth budget of the recursive subdivision.  Coincident or nearly
/// coincident points that never separate are aggregated into one leaf
/// when the budget runs out.
pub const MAX_DEPTH: u32 = 64;

/// A snapshot of a mass point while the tree is built and queried: the
/// velocity plays no role in the force calculation.
#[derive(Debug, Copy, Clone, PartialEq, Eq, Structural)]
pub struct StaticMassPoint {
    pub mass: i64,
    pub position: Vec2,
}

impl StaticMassPoint {
    /// Forget the velocity of `m`.
    pub fn from_mass_point(m: MassPoint) -> (s: StaticMassPoint)
        ensures
            s.mass == m.mass,
            s.position == m.position,
    {
        StaticMassPoint { mass: m.mass, position: m.position }
    }
}

/// A rectangular region of the plane with its aggregated contents.
#[derive(Debug, Copy, Clone)]
pub struct Rect {
    /// Total mass inside the region.
    pub mass: i64,
    /// Center of mass of the region's contents.
    pub mass_center: Vec2,
    /// Geometric center of the rectangle.
    pub geometric_center: Vec2,
    /// Full side lengths of the rectangle (not half-widths).
    pub length: Vec2,
}

impl Rect {
    /// A rectangle with every field given.
    pub fn new(mass: i64, mass_center: Vec2, geometric_center: Vec2, length: Vec2) -> (r: Rect)
        ensures
            r.mass == mass,
            r.mass_center == mass_center,
            r.geometric_center == geometric_center,
            r.length == length,
    {
        Rect { mass, mass_center, geometric_center, length }
    }
}

impl Default for Rect {
    /// The all-zero degenerate rectangle.
    fn default() -> (r: Rect)
        ensures
            r.mass == 0,
            r.mass_center.x == 0 && r.mass_center.y == 0,
            r.geometric_center.x == 0 && r.geometric_center.y == 0,
            r.length.x == 0 && r.length.y == 0,
    {
        Rect {
            mass: 0,
            mass_center: Vec2 { x: 0, y: 0 },
            geometric_center: Vec2 { x: 0, y: 0 },
            length: Vec2 { x: 0, y: 0 },
        }
    }
}

/// Which quadrant of a node a point falls into.  Ties on either axis
/// break toward the greater ("right"/"bottom") side.
#[derive(Debug, Copy, Clone, PartialEq, Eq, Structural)]
pub enum ChildRectLocation {
    LeftTop,
    LeftBottom,
    RightTop,
    RightBottom,
}

/// The quadrant of `(px, py)` relative to the center `(cx, cy)`.
pub open spec fn locate_spec(px: int, py: int, cx: int, cy: int) -> ChildRectLocation {
    if px < cx {
        if py < cy {
            ChildRectLocation::LeftTop
        } else {
            ChildRectLocation::LeftBottom
        }
    } else {
        if py < cy {
            ChildRectLocation::RightTop
        } else {
            ChildRectLocation::RightBottom
        }
    }
}

/// The x offset sign of a quadrant: `-1` for the left half, `+1` else.
pub open spec fn loc_sign_x(loc: ChildRectLocation) -> int {
    match loc {
        ChildRectLocation::LeftTop => -1,
        ChildRectLocation::LeftBottom => -1,
        ChildRectLocation::RightTop => 1,
        ChildRectLocation::RightBottom => 1,
    }
}

/// The y offset sign of a quadrant: `-1` for the top half, `+1` else.
pub open spec fn loc_sign_y(loc: ChildRectLocation) -> int {
    match loc {
        ChildRectLocation::LeftTop => -1,
        ChildRectLocation::LeftBottom => 1,
        ChildRectLocation::RightTop => -1,
        ChildRectLocation::RightBottom => 1,
    }
}

impl ChildRectLocation {
    /// The quadrant of `pos` relative to `geometric_center`.
    pub fn locate(pos: Vec2, geometric_center: Vec2) -> (l: ChildRectLocation)
        ensures
            l == locate_spec(
                pos.x as int,
                pos.y as int,
                geometric_center.x as int,
                geometric_center.y as int,
            ),
    {
        if pos.x < geometric_center.x {
            if pos.y < geometric_center.y {
                ChildRectLocation::LeftTop
            } else {
                ChildRectLocation::LeftBottom
            }
        } else {
            if pos.y < geometric_center.y {
                ChildRectLocation::RightTop
            } else {
                ChildRectLocation::RightBottom
            }
        }
    }

    /// The center of this quadrant of `parent`: offset by a quarter of
    /// the parent's extent on each axis.
    pub fn to_geometric_center(self, parent: &Rect) -> (c: Vec2)
        requires
            geom_ok(
                parent.geometric_center.x as int,
                parent.geometric_center.y as int,
                parent.length.x as int,
                parent.length.y as int,
            ),
        ensures
            c.x == child_center(
                parent.geometric_center.x as int,
                parent.length.x as int,
                loc_sign_x(self),
            ),
            c.y == child_center(
                parent.geometric_center.y as int,
                parent.length.y as int,
                loc_sign_y(self),
            ),
    {
        let qx: i64 = tdiv_i128(parent.length.x as i128, 4) as i64;
        let qy: i64 = tdiv_i128(parent.length.y as i128, 4) as i64;
        let (sx, sy): (i64, i64) = match self {
            ChildRectLocation::LeftTop => (-1, -1),
            ChildRectLocation::LeftBottom => (-1, 1),
            ChildRectLocation::RightTop => (1, -1),
            ChildRectLocation::RightBottom => (1, 1),
        };
        Vec2 { x: parent.geometric_center.x + sx * qx, y: parent.geometric_center.y + sy * qy }
    }
}

/// Geometry bounds that tree construction maintains: nonnegative extents
/// and `|center| + extent` under [`GEOM_LIMIT`].
pub open spec fn geom_ok(gcx: int, gcy: int, lenx: int, leny: int) -> bool {
    0 <= lenx && 0 <= leny && abs(gcx) + lenx <= GEOM_LIMIT && abs(gcy) + leny <= GEOM_LIMIT
}

/// The center coordinate of a child quadrant on one axis.
pub open spec fn child_center(gc: int, len: int, sign: int) -> int {
    gc + sign * tdiv(len, 4)
}

/// The model of a tree node: aggregated mass and center of mass, the
/// region's geometry, and the models of the children.
#[verifier::ext_equal]
pub struct NodeModel {
    pub mass: int,
    pub com_x: int,
    pub com_y: int,
    pub gc_x: int,
    pub gc_y: int,
    pub len_x: int,
    pub len_y: int,
    pub kids: Seq<NodeModel>,
}

/// Sum of the masses of `bs`.
pub open spec fn mass_sum(bs: Seq<StaticMassPoint>) -> int
    decreases bs.len(),
{
    if bs.len() == 0 {
        0
    } else {
        mass_sum(bs.drop_last()) + bs.last().mass
    }
}

/// Sum of `mass * x` over `bs`.
pub open spec fn wsum_x(bs: Seq<StaticMassPoint>) -> int
    decreases bs.len(),
{
    if bs.len() == 0 {
        0
    } else {
        wsum_x(bs.drop_last()) + bs.last().mass * bs.last().position.x
    }
}

/// Sum of `mass * y` over `bs`.
pub open spec fn wsum_y(bs: Seq<StaticMassPoint>) -> int
    decreases bs.len(),
{
    if bs.len() == 0 {
        0
    } else {
        wsum_y(bs.drop_last()) + bs.last().mass * bs.last().position.y
    }
}

/// Sum of the aggregated masses of `kids`.
pub open spec fn kids_mass_sum(kids: Seq<NodeModel>) -> int
    decreases kids.len(),
{
    if kids.len() == 0 {
        0
    } else {
        kids_mass_sum(kids.drop_last()) + kids.last().mass
    }
}

/// Sum of `mass * com_x` over `kids`.
pub open spec fn kids_wsum_x(kids: Seq<NodeModel>) -> int
    decreases kids.len(),
{
    if kids.len() == 0 {
        0
    } else {
        kids_wsum_x(kids.drop_last()) + kids.last().mass * kids.last().com_x
    }
}

/// Sum of `mass * com_y` over `kids`.
pub open spec fn kids_wsum_y(kids: Seq<NodeModel>) -> int
    decreases kids.len(),
{
    if kids.len() == 0 {
        0
    } else {
        kids_wsum_y(kids.drop_last()) + kids.last().mass * kids.last().com_y
    }
}

/// The bodies of `bs` that fall into quadrant `loc` of center `(cx, cy)`.
pub open spec fn quadrant_of(bs: Seq<StaticMassPoint>, cx: int, cy: int, loc: ChildRectLocation) -> Seq<
    StaticMassPoint,
> {
    bs.filter(|b: StaticMassPoint| locate_spec(b.position.x as int, b.position.y as int, cx, cy) == loc)
}

/// The tree that `bs` produces inside the region centered at
/// `(gcx, gcy)` with extent `(lenx, leny)`, subdividing at most `depth`
/// more times.
///
/// Zero bodies leave the zero aggregate; one body becomes a leaf carrying
/// it; two or more split into up to four children (empty quadrants are
/// pruned) whose aggregates are combined mass-weightedly.  When the depth
/// budget is exhausted the bodies are aggregated directly into one leaf.
pub open spec fn build_node(
    gcx: int,
    gcy: int,
    lenx: int,
    leny: int,
    bs: Seq<StaticMassPoint>,
    depth: nat,
) -> NodeModel
    decreases depth,
{
    if bs.len() == 0 {
        NodeModel {
            mass: 0,
            com_x: 0,
            com_y: 0,
            gc_x: gcx,
            gc_y: gcy,
            len_x: lenx,
            len_y: leny,
            kids: Seq::empty(),
        }
    } else if bs.len() == 1 {
        NodeModel {
            mass: bs[0].mass as int,
            com_x: bs[0].position.x as int,
            com_y: bs[0].position.y as int,
            gc_x: gcx,
            gc_y: gcy,
            len_x: lenx,
            len_y: leny,
            kids: Seq::empty(),
        }
    } else if depth == 0 {
        NodeModel {
            mass: mass_sum(bs),
            com_x: tdiv(wsum_x(bs), mass_sum(bs)),
            com_y: tdiv(wsum_y(bs), mass_sum(bs)),
            gc_x: gcx,
            gc_y: gcy,
            len_x: lenx,
            len_y: leny,
            kids: Seq::empty(),
        }
    } else {
        let clx = tdiv(lenx, 2);
        let cly = tdiv(leny, 2);
        let q_lt = quadrant_of(bs, gcx, gcy, ChildRectLocation::LeftTop);
        let q_lb = quadrant_of(bs, gcx, gcy, ChildRectLocation::LeftBottom);
        let q_rt = quadrant_of(bs, gcx, gcy, ChildRectLocation::RightTop);
        let q_rb = quadrant_of(bs, gcx, gcy, ChildRectLocation::RightBottom);
        let k_lt: Seq<NodeModel> = if q_lt.len() > 0 {
            seq![
                build_node(
                    child_center(gcx, lenx, -1),
                    child_center(gcy, leny, -1),
                    clx,
                    cly,
                    q_lt,
                    (depth - 1) as nat,
                ),
            ]
        } else {
            Seq::empty()
        };
        let k_lb: Seq<NodeModel> = if q_lb.len() > 0 {
            seq![
                build_node(
                    child_center(gcx, lenx, -1),
                    child_center(gcy, leny, 1),
                    clx,
                    cly,
                    q_lb,
                    (depth - 1) as nat,
                ),
            ]
        } else {
            Seq::empty()
        };
        let k_rt: Seq<NodeModel> = if q_rt.len() > 0 {
            seq![
                build_node(
                    child_center(gcx, lenx, 1),
                    child_center(gcy, leny, -1),
                    clx,
                    cly,
                    q_rt,
                    (depth - 1) as nat,
                ),
            ]
        } else {
            Seq::empty()
        };
        let k_rb: Seq<NodeModel> = if q_rb.len() > 0 {
            seq![
                build_node(
                    child_center(gcx, lenx, 1),
                    child_center(gcy, leny, 1),
                    clx,
                    cly,
                    q_rb,
                    (depth - 1) as nat,
                ),
            ]
        } else {
            Seq::empty()
        };
        let kids = k_lt + k_lb + k_rt + k_rb;
        let m = kids_mass_sum(kids);
        NodeModel {
            mass: m,
            com_x: tdiv(kids_wsum_x(kids), m),
            com_y: tdiv(kids_wsum_y(kids), m),
            gc_x: gcx,
            gc_y: gcy,
            len_x: lenx,
            len_y: leny,
            kids,
        }
    }
}

/// Every body has positive mass and coordinates within [`LIMIT`], and the
/// total mass fits an `i64`.
pub open spec fn bodies_ok(bs: Seq<StaticMassPoint>) -> bool {
    (forall|i: int|
        0 <= i < bs.len() ==> (#[trigger] bs[i]).mass > 0 && abs(bs[i].position.x as int) <= LIMIT && abs(bs[i].position.y as int)
            <= LIMIT) && mass_sum(bs) <= i64::MAX
}

/// The model of an executable tree node.
pub open spec fn node_view(n: TreeNode<Rect>) -> NodeModel
    decreases n,
{
    NodeModel {
        mass: n.data.mass as int,
        com_x: n.data.mass_center.x as int,
        com_y: n.data.mass_center.y as int,
        gc_x: n.data.geometric_center.x as int,
        gc_y: n.data.geometric_center.y as int,
        len_x: n.data.length.x as int,
        len_y: n.data.length.y as int,
        kids: kids_view(n.children@),
    }
}

/// The models of a sequence of executable tree nodes.
pub open spec fn kids_view(s: Seq<TreeNode<Rect>>) -> Seq<NodeModel>
    decreases s,
{
    if s.len() == 0 {
        Seq::empty()
    } else {
        kids_view(s.drop_last()).push(node_view(s.last()))
    }
}

/// The predicate selecting the bodies of quadrant `loc`.
pub open spec fn quad_pred(cx: int, cy: int, loc: ChildRectLocation) -> spec_fn(
    StaticMassPoint,
) -> bool {
    |b: StaticMassPoint| locate_spec(b.position.x as int, b.position.y as int, cx, cy) == loc
}

/// Well-formedness of a node model: bounded aggregates, sane geometry
/// and, for an internal node, a mass that equals the children's total and
/// is strictly positive (the invariant the construction asserts).
pub open spec fn model_ok(n: NodeModel) -> bool
    decreases n,
{
    &&& 0 <= n.mass <= i64::MAX
    &&& abs(n.com_x) <= LIMIT
    &&& abs(n.com_y) <= LIMIT
    &&& geom_ok(n.gc_x, n.gc_y, n.len_x, n.len_y)
    &&& (n.kids.len() > 0 ==> n.mass == kids_mass_sum(n.kids) && n.mass > 0)
    &&& kids_ok(n.kids)
}

/// Every node of `s` is well-formed with positive mass.
pub open spec fn kids_ok(s: Seq<NodeModel>) -> bool
    decreases s,
{
    if s.len() == 0 {
        true
    } else {
        kids_ok(s.drop_last()) && model_ok(s.last()) && s.last().mass > 0
    }
}

/// The sums over a concatenation split into the sums over the halves.
proof fn lemma_kids_concat(a: Seq<NodeModel>, b: Seq<NodeModel>)
    ensures
        kids_mass_sum(a + b) == kids_mass_sum(a) + kids_mass_sum(b),
        kids_wsum_x(a + b) == kids_wsum_x(a) + kids_wsum_x(b),
        kids_wsum_y(a + b) == kids_wsum_y(a) + kids_wsum_y(b),
        kids_ok(a) && kids_ok(b) ==> kids_ok(a + b),
    decreases b.len(),
{
    if b.len() == 0 {
        assert(a + b =~= a);
    } else {
        lemma_kids_concat(a, b.drop_last());
        assert((a + b).drop_last() =~= a + b.drop_last());
        assert((a + b).last() == b.last());
    }
}

/// Appending one body extends the point sums by its contribution.
pub proof fn lemma_point_sums_push(s: Seq<StaticMassPoint>, x: StaticMassPoint)
    ensures
        mass_sum(s.push(x)) == mass_sum(s) + x.mass,
        wsum_x(s.push(x)) == wsum_x(s) + x.mass * x.position.x,
        wsum_y(s.push(x)) == wsum_y(s) + x.mass * x.position.y,
{
    assert(s.push(x).drop_last() =~= s);
    assert(s.push(x).last() == x);
}

/// Filtering after a push keeps or drops exactly the pushed element.
pub proof fn lemma_filter_push<A>(s: Seq<A>, pred: spec_fn(A) -> bool, x: A)
    ensures
        s.push(x).filter(pred) == if pred(x) {
            s.filter(pred).push(x)
        } else {
            s.filter(pred)
        },
{
    reveal(Seq::filter);
    assert(s.push(x).drop_last() =~= s);
    assert(s.push(x).last() == x);
}

/// A point set's sums split exactly into the four quadrants' sums.
proof fn lemma_quadrant_partition(bs: Seq<StaticMassPoint>, cx: int, cy: int)
    ensures
        mass_sum(bs) == mass_sum(quadrant_of(bs, cx, cy, ChildRectLocation::LeftTop)) + mass_sum(
            quadrant_of(bs, cx, cy, ChildRectLocation::LeftBottom),
        ) + mass_sum(quadrant_of(bs, cx, cy, ChildRectLocation::RightTop)) + mass_sum(
            quadrant_of(bs, cx, cy, ChildRectLocation::RightBottom),
        ),
        wsum_x(bs) == wsum_x(quadrant_of(bs, cx, cy, ChildRectLocation::LeftTop)) + wsum_x(
            quadrant_of(bs, cx, cy, ChildRectLocation::LeftBottom),
        ) + wsum_x(quadrant_of(bs, cx, cy, ChildRectLocation::RightTop)) + wsum_x(
            quadrant_of(bs, cx, cy, ChildRectLocation::RightBottom),
        ),
        wsum_y(bs) == wsum_y(quadrant_of(bs, cx, cy, ChildRectLocation::LeftTop)) + wsum_y(
            quadrant_of(bs, cx, cy, ChildRectLocation::LeftBottom),
        ) + wsum_y(quadrant_of(bs, cx, cy, ChildRectLocation::RightTop)) + wsum_y(
            quadrant_of(bs, cx, cy, ChildRectLocation::RightBottom),
        ),
    decreases bs.len(),
{
    reveal(Seq::filter);
    if bs.len() > 0 {
        let p = bs.drop_last();
        let x = bs.last();
        lemma_quadrant_partition(p, cx, cy);
        assert(bs =~= p.push(x));
        lemma_filter_push(p, quad_pred(cx, cy, ChildRectLocation::LeftTop), x);
        lemma_filter_push(p, quad_pred(cx, cy, ChildRectLocation::LeftBottom), x);
        lemma_filter_push(p, quad_pred(cx, cy, ChildRectLocation::RightTop), x);
        lemma_filter_push(p, quad_pred(cx, cy, ChildRectLocation::RightBottom), x);
        lemma_point_sums_push(p.filter(quad_pred(cx, cy, ChildRectLocation::LeftTop)), x);
        lemma_point_sums_push(p.filter(quad_pred(cx, cy, ChildRectLocation::LeftBottom)), x);
        lemma_point_sums_push(p.filter(quad_pred(cx, cy, ChildRectLocation::RightTop)), x);
        lemma_point_sums_push(p.filter(quad_pred(cx, cy, ChildRectLocation::RightBottom)), x);
        lemma_point_sums_push(p, x);
    }
}

/// Nonnegative masses give a nonnegative sum.
proof fn lemma_mass_sum_nonneg(bs: Seq<StaticMassPoint>)
    requires
        forall|i: int| 0 <= i < bs.len() ==> (#[trigger] bs[i]).mass >= 0,
    ensures
        mass_sum(bs) >= 0,
    decreases bs.len(),
{
    if bs.len() > 0 {
        lemma_mass_sum_nonneg(bs.drop_last());
    }
}

/// Positive masses give a strictly positive sum for a nonempty set.
pub proof fn lemma_mass_sum_pos(bs: Seq<StaticMassPoint>)
    requires
        bs.len() > 0,
        forall|i: int| 0 <= i < bs.len() ==> (#[trigger] bs[i]).mass > 0,
    ensures
        mass_sum(bs) > 0,
{
    lemma_mass_sum_nonneg(bs.drop_last());
}

/// A prefix sum never exceeds the whole (for nonnegative masses).
pub proof fn lemma_mass_sum_prefix_le(bs: Seq<StaticMassPoint>, i: int)
    requires
        0 <= i <= bs.len(),
        forall|j: int| 0 <= j < bs.len() ==> (#[trigger] bs[j]).mass >= 0,
    ensures
        0 <= mass_sum(bs.subrange(0, i)) <= mass_sum(bs),
    decreases bs.len() - i,
{
    lemma_mass_sum_nonneg(bs.subrange(0, i));
    if i == bs.len() {
        assert(bs.subrange(0, i) =~= bs);
    } else {
        assert(bs.subrange(0, i + 1) =~= bs.subrange(0, i).push(bs[i]));
        lemma_point_sums_push(bs.subrange(0, i), bs[i]);
        lemma_mass_sum_prefix_le(bs, i + 1);
    }
}

/// The weighted position sums are bounded by `total mass * LIMIT`.
proof fn lemma_wsum_bound(bs: Seq<StaticMassPoint>)
    requires
        forall|i: int|
            0 <= i < bs.len() ==> (#[trigger] bs[i]).mass >= 0 && abs(bs[i].position.x as int)
                <= LIMIT && abs(bs[i].position.y as int) <= LIMIT,
    ensures
        abs(wsum_x(bs)) <= mass_sum(bs) * LIMIT,
        abs(wsum_y(bs)) <= mass_sum(bs) * LIMIT,
        mass_sum(bs) >= 0,
    decreases bs.len(),
{
    lemma_mass_sum_nonneg(bs);
    if bs.len() == 0 {
        assert(mass_sum(bs) * LIMIT == 0) by (nonlinear_arith)
            requires
                mass_sum(bs) == 0;
    } else {
        let p = bs.drop_last();
        let x = bs.last();
        lemma_wsum_bound(p);
        assert(abs(wsum_x(p) + x.mass * x.position.x) <= (mass_sum(p) + x.mass) * LIMIT)
            by (nonlinear_arith)
            requires
                abs(wsum_x(p)) <= mass_sum(p) * LIMIT,
                x.mass >= 0,
                abs(x.position.x as int) <= LIMIT,
                LIMIT > 0;
        assert(abs(wsum_y(p) + x.mass * x.position.y) <= (mass_sum(p) + x.mass) * LIMIT)
            by (nonlinear_arith)
            requires
                abs(wsum_y(p)) <= mass_sum(p) * LIMIT,
                x.mass >= 0,
                abs(x.position.y as int) <= LIMIT,
                LIMIT > 0;
    }
}

/// The weighted center sums over children are bounded the same way.
proof fn lemma_kids_wsum_bound(s: Seq<NodeModel>)
    requires
        kids_ok(s),
    ensures
        abs(kids_wsum_x(s)) <= kids_mass_sum(s) * LIMIT,
        abs(kids_wsum_y(s)) <= kids_mass_sum(s) * LIMIT,
        kids_mass_sum(s) >= 0,
    decreases s.len(),
{
    if s.len() == 0 {
        assert(kids_mass_sum(s) * LIMIT == 0) by (nonlinear_arith)
            requires
                kids_mass_sum(s) == 0;
    } else {
        let p = s.drop_last();
        let x = s.last();
        assert(kids_ok(p) && model_ok(x));
        assert(0 <= x.mass && abs(x.com_x) <= LIMIT && abs(x.com_y) <= LIMIT);
        lemma_kids_wsum_bound(p);
        assert(abs(kids_wsum_x(p) + x.mass * x.com_x) <= (kids_mass_sum(p) + x.mass) * LIMIT)
            by (nonlinear_arith)
            requires
                abs(kids_wsum_x(p)) <= kids_mass_sum(p) * LIMIT,
                x.mass >= 0,
                abs(x.com_x) <= LIMIT,
                LIMIT > 0;
        assert(abs(kids_wsum_y(p) + x.mass * x.com_y) <= (kids_mass_sum(p) + x.mass) * LIMIT)
            by (nonlinear_arith)
            requires
                abs(kids_wsum_y(p)) <= kids_mass_sum(p) * LIMIT,
                x.mass >= 0,
                abs(x.com_y) <= LIMIT,
                LIMIT > 0;
    }
}

/// Every element of a filtered sequence occurs in the unfiltered one.
pub proof fn lemma_filter_subset<A>(s: Seq<A>, pred: spec_fn(A) -> bool)
    ensures
        forall|i: int|
            0 <= i < s.filter(pred).len() ==> s.contains(#[trigger] s.filter(pred)[i]),
    decreases s.len(),
{
    reveal(Seq::filter);
    if s.len() > 0 {
        let p = s.drop_last();
        lemma_filter_subset(p, pred);
        assert forall|i: int|
            0 <= i < s.filter(pred).len() implies s.contains(#[trigger] s.filter(pred)[i]) by {
            let e = s.filter(pred)[i];
            if pred(s.last()) && i == s.filter(pred).len() - 1 {
                assert(e == s.last());
                assert(s[s.len() - 1] == e);
            } else {
                assert(e == p.filter(pred)[i]);
                assert(p.contains(e));
                let j = choose|j: int| 0 <= j < p.len() && p[j] == e;
                assert(s[j] == e);
            }
        }
    }
}

/// Each quadrant of a well-formed point set is well-formed and no
/// heavier than the whole.
proof fn lemma_quadrants_ok(bs: Seq<StaticMassPoint>, cx: int, cy: int)
    requires
        bodies_ok(bs),
    ensures
        bodies_ok(quadrant_of(bs, cx, cy, ChildRectLocation::LeftTop)),
        bodies_ok(quadrant_of(bs, cx, cy, ChildRectLocation::LeftBottom)),
        bodies_ok(quadrant_of(bs, cx, cy, ChildRectLocation::RightTop)),
        bodies_ok(quadrant_of(bs, cx, cy, ChildRectLocation::RightBottom)),
        0 <= mass_sum(quadrant_of(bs, cx, cy, ChildRectLocation::LeftTop)) <= mass_sum(bs),
        0 <= mass_sum(quadrant_of(bs, cx, cy, ChildRectLocation::LeftBottom)) <= mass_sum(bs),
        0 <= mass_sum(quadrant_of(bs, cx, cy, ChildRectLocation::RightTop)) <= mass_sum(bs),
        0 <= mass_sum(quadrant_of(bs, cx, cy, ChildRectLocation::RightBottom)) <= mass_sum(bs),
{
    lemma_quadrant_elems(bs, cx, cy, ChildRectLocation::LeftTop);
    lemma_quadrant_elems(bs, cx, cy, ChildRectLocation::LeftBottom);
    lemma_quadrant_elems(bs, cx, cy, ChildRectLocation::RightTop);
    lemma_quadrant_elems(bs, cx, cy, ChildRectLocation::RightBottom);
    lemma_quadrant_partition(bs, cx, cy);
    lemma_mass_sum_nonneg(quadrant_of(bs, cx, cy, ChildRectLocation::LeftTop));
    lemma_mass_sum_nonneg(quadrant_of(bs, cx, cy, ChildRectLocation::LeftBottom));
    lemma_mass_sum_nonneg(quadrant_of(bs, cx, cy, ChildRectLocation::RightTop));
    lemma_mass_sum_nonneg(quadrant_of(bs, cx, cy, ChildRectLocation::RightBottom));
    lemma_mass_sum_le_total(bs, cx, cy);
}

/// Element-wise: a quadrant's bodies inherit the bounds of the whole
/// set, and the quadrant's total mass is at most the whole's.
proof fn lemma_quadrant_elems(bs: Seq<StaticMassPoint>, cx: int, cy: int, loc: ChildRectLocation)
    requires
        bodies_ok(bs),
    ensures
        forall|i: int|
            0 <= i < quadrant_of(bs, cx, cy, loc).len() ==> (#[trigger] quadrant_of(
                bs,
                cx,
                cy,
                loc,
            )[i]).mass > 0 && abs(quadrant_of(bs, cx, cy, loc)[i].position.x as int) <= LIMIT
                && abs(quadrant_of(bs, cx, cy, loc)[i].position.y as int) <= LIMIT,
{
    let q = quadrant_of(bs, cx, cy, loc);
    lemma_filter_subset(bs, quad_pred(cx, cy, loc));
    assert forall|i: int|
        0 <= i < q.len() implies (#[trigger] q[i]).mass > 0 && abs(q[i].position.x as int) <= LIMIT
        && abs(q[i].position.y as int) <= LIMIT by {
        assert(bs.contains(q[i]));
        let j = choose|j: int| 0 <= j < bs.len() && bs[j] == q[i];
        assert(bs[j].mass > 0);
    }
}

/// From nonnegative quadrant sums and the partition equation, each
/// quadrant's sum is at most the whole's.
proof fn lemma_mass_sum_le_total(bs: Seq<StaticMassPoint>, cx: int, cy: int)
    requires
        mass_sum(quadrant_of(bs, cx, cy, ChildRectLocation::LeftTop)) >= 0,
        mass_sum(quadrant_of(bs, cx, cy, ChildRectLocation::LeftBottom)) >= 0,
        mass_sum(quadrant_of(bs, cx, cy, ChildRectLocation::RightTop)) >= 0,
        mass_sum(quadrant_of(bs, cx, cy, ChildRectLocation::RightBottom)) >= 0,
        mass_sum(bs) == mass_sum(quadrant_of(bs, cx, cy, ChildRectLocation::LeftTop)) + mass_sum(
            quadrant_of(bs, cx, cy, ChildRectLocation::LeftBottom),
        ) + mass_sum(quadrant_of(bs, cx, cy, ChildRectLocation::RightTop)) + mass_sum(
            quadrant_of(bs, cx, cy, ChildRectLocation::RightBottom),
        ),
    ensures
        mass_sum(quadrant_of(bs, cx, cy, ChildRectLocation::LeftTop)) <= mass_sum(bs),
        mass_sum(quadrant_of(bs, cx, cy, ChildRectLocation::LeftBottom)) <= mass_sum(bs),
        mass_sum(quadrant_of(bs, cx, cy, ChildRectLocation::RightTop)) <= mass_sum(bs),
        mass_sum(quadrant_of(bs, cx, cy, ChildRectLocation::RightBottom)) <= mass_sum(bs),
{
}

/// A child quadrant's geometry stays within bounds: the center moves a
/// quarter extent while the extent halves.
proof fn lemma_child_geom(gcx: int, gcy: int, lenx: int, leny: int, sx: int, sy: int)
    requires
        geom_ok(gcx, gcy, lenx, leny),
        sx == 1 || sx == -1,
        sy == 1 || sy == -1,
    ensures
        geom_ok(
            child_center(gcx, lenx, sx),
            child_center(gcy, leny, sy),
            tdiv(lenx, 2),
            tdiv(leny, 2),
        ),
{
    lemma_quarter_half(lenx);
    lemma_quarter_half(leny);
}

/// For `a >= 0`: `a/4` and `a/2` are nonnegative and together at most `a`.
proof fn lemma_quarter_half(a: int)
    requires
        a >= 0,
    ensures
        0 <= tdiv(a, 4),
        0 <= tdiv(a, 2),
        tdiv(a, 4) + tdiv(a, 2) <= a,
{
    vstd::arithmetic::div_mod::lemma_div_pos_is_pos(a, 4);
    vstd::arithmetic::div_mod::lemma_div_pos_is_pos(a, 2);
    vstd::arithmetic::div_mod::lemma_div_is_ordered_by_denominator(a, 2, 4);
    vstd::arithmetic::div_mod::lemma_fundamental_div_mod(a, 2);
}

/// What the built tree satisfies: its aggregated mass is exactly the sum
/// of the point masses, and the whole tree is well formed.
pub proof fn lemma_build_props(
    gcx: int,
    gcy: int,
    lenx: int,
    leny: int,
    bs: Seq<StaticMassPoint>,
    depth: nat,
)
    requires
        bodies_ok(bs),
        geom_ok(gcx, gcy, lenx, leny),
    ensures
        build_node(gcx, gcy, lenx, leny, bs, depth).mass == mass_sum(bs),
        model_ok(build_node(gcx, gcy, lenx, leny, bs, depth)),
        bs.len() > 0 ==> build_node(gcx, gcy, lenx, leny, bs, depth).mass > 0,
    decreases depth,
{
    let n = build_node(gcx, gcy, lenx, leny, bs, depth);
    if bs.len() == 0 {
        assert(n.mass == mass_sum(bs));
        assert(model_ok(n));
    } else if bs.len() == 1 {
        assert(bs.drop_last() =~= Seq::<StaticMassPoint>::empty());
        assert(bs.last() == bs[0]);
        assert(bs[0].mass > 0);
        assert(mass_sum(Seq::<StaticMassPoint>::empty()) == 0);
        assert(mass_sum(bs) == mass_sum(bs.drop_last()) + bs.last().mass);
        assert(n.mass == mass_sum(bs));
        assert(model_ok(n));
    } else if depth == 0 {
        lemma_mass_sum_pos(bs);
        lemma_wsum_bound(bs);
        assert(LIMIT * mass_sum(bs) == mass_sum(bs) * LIMIT) by (nonlinear_arith);
        lemma_tdiv_bound(wsum_x(bs), mass_sum(bs), LIMIT as int);
        lemma_tdiv_bound(wsum_y(bs), mass_sum(bs), LIMIT as int);
        assert(n.mass == mass_sum(bs));
        assert(abs(n.com_x) <= LIMIT && abs(n.com_y) <= LIMIT);
        assert(model_ok(n));
    } else {
        let q_lt = quadrant_of(bs, gcx, gcy, ChildRectLocation::LeftTop);
        let q_lb = quadrant_of(bs, gcx, gcy, ChildRectLocation::LeftBottom);
        let q_rt = quadrant_of(bs, gcx, gcy, ChildRectLocation::RightTop);
        let q_rb = quadrant_of(bs, gcx, gcy, ChildRectLocation::RightBottom);
        lemma_quadrants_ok(bs, gcx, gcy);
        lemma_child_geom(gcx, gcy, lenx, leny, -1, -1);
        lemma_child_geom(gcx, gcy, lenx, leny, -1, 1);
        lemma_child_geom(gcx, gcy, lenx, leny, 1, -1);
        lemma_child_geom(gcx, gcy, lenx, leny, 1, 1);
        let clx = tdiv(lenx, 2);
        let cly = tdiv(leny, 2);
        let d = (depth - 1) as nat;
        lemma_build_props(child_center(gcx, lenx, -1), child_center(gcy, leny, -1), clx, cly, q_lt, d);
        lemma_build_props(child_center(gcx, lenx, -1), child_center(gcy, leny, 1), clx, cly, q_lb, d);
        lemma_build_props(child_center(gcx, lenx, 1), child_center(gcy, leny, -1), clx, cly, q_rt, d);
        lemma_build_props(child_center(gcx, lenx, 1), child_center(gcy, leny, 1), clx, cly, q_rb, d);
        let k_lt: Seq<NodeModel> = if q_lt.len() > 0 {
            seq![build_node(child_center(gcx, lenx, -1), child_center(gcy, leny, -1), clx, cly, q_lt, d)]
        } else {
            Seq::empty()
        };
        let k_lb: Seq<NodeModel> = if q_lb.len() > 0 {
            seq![build_node(child_center(gcx, lenx, -1), child_center(gcy, leny, 1), clx, cly, q_lb, d)]
        } else {
            Seq::empty()
        };
        let k_rt: Seq<NodeModel> = if q_rt.len() > 0 {
            seq![build_node(child_center(gcx, lenx, 1), child_center(gcy, leny, -1), clx, cly, q_rt, d)]
        } else {
            Seq::empty()
        };
        let k_rb: Seq<NodeModel> = if q_rb.len() > 0 {
            seq![build_node(child_center(gcx, lenx, 1), child_center(gcy, leny, 1), clx, cly, q_rb, d)]
        } else {
            Seq::empty()
        };
        lemma_kids_single(k_lt);
        lemma_kids_single(k_lb);
        lemma_kids_single(k_rt);
        lemma_kids_single(k_rb);
        if q_lt.len() == 0 {
            assert(mass_sum(q_lt) == 0);
        }
        if q_lb.len() == 0 {
            assert(mass_sum(q_lb) == 0);
        }
        if q_rt.len() == 0 {
            assert(mass_sum(q_rt) == 0);
        }
        if q_rb.len() == 0 {
            assert(mass_sum(q_rb) == 0);
        }
        assert(kids_mass_sum(k_lt) == mass_sum(q_lt));
        assert(kids_mass_sum(k_lb) == mass_sum(q_lb));
        assert(kids_mass_sum(k_rt) == mass_sum(q_rt));
        assert(kids_mass_sum(k_rb) == mass_sum(q_rb));
        assert(kids_ok(k_lt) && kids_ok(k_lb) && kids_ok(k_rt) && kids_ok(k_rb));
        lemma_kids_concat(k_lt, k_lb);
        lemma_kids_concat(k_lt + k_lb, k_rt);
        lemma_kids_concat(k_lt + k_lb + k_rt, k_rb);
        let kids = k_lt + k_lb + k_rt + k_rb;
        lemma_quadrant_partition(bs, gcx, gcy);
        assert(kids_mass_sum(kids) == mass_sum(bs));
        lemma_mass_sum_pos(bs);
        assert(kids_ok(kids));
        lemma_kids_wsum_bound(kids);
        assert(LIMIT * kids_mass_sum(kids) == kids_mass_sum(kids) * LIMIT) by (nonlinear_arith);
        lemma_tdiv_bound(kids_wsum_x(kids), kids_mass_sum(kids), LIMIT as int);
        lemma_tdiv_bound(kids_wsum_y(kids), kids_mass_sum(kids), LIMIT as int);
        assert(n.kids == kids);
        assert(n.mass == kids_mass_sum(kids));
        assert(n.mass == mass_sum(bs));
        assert(n.com_x == tdiv(kids_wsum_x(kids), kids_mass_sum(kids)));
        assert(abs(n.com_x) <= LIMIT && abs(n.com_y) <= LIMIT);
        assert(kids.len() > 0);
        assert(model_ok(n));
    }
}

/// The fold sums of a zero- or one-element child list, unfolded.
proof fn lemma_kids_single(k: Seq<NodeModel>)
    requires
        k.len() <= 1,
    ensures
        k.len() == 0 ==> kids_mass_sum(k) == 0 && kids_wsum_x(k) == 0 && kids_wsum_y(k) == 0
            && kids_ok(k),
        k.len() == 1 ==> kids_mass_sum(k) == k[0].mass && kids_wsum_x(k) == k[0].mass * k[0].com_x
            && kids_wsum_y(k) == k[0].mass * k[0].com_y && (kids_ok(k) <==> (model_ok(k[0])
            && k[0].mass > 0)),
{
    let e = Seq::<NodeModel>::empty();
    assert(kids_mass_sum(e) == 0);
    assert(kids_wsum_x(e) == 0);
    assert(kids_wsum_y(e) == 0);
    assert(kids_ok(e));
    if k.len() == 1 {
        assert(k.drop_last() =~= e);
        assert(k.last() == k[0]);
        assert(kids_mass_sum(k) == kids_mass_sum(k.drop_last()) + k.last().mass);
        assert(kids_mass_sum(k.drop_last()) == kids_mass_sum(e));
        assert(kids_wsum_x(k) == kids_wsum_x(k.drop_last()) + k.last().mass * k.last().com_x);
        assert(kids_wsum_y(k) == kids_wsum_y(k.drop_last()) + k.last().mass * k.last().com_y);
        assert(kids_ok(k) == (kids_ok(k.drop_last()) && model_ok(k.last()) && k.last().mass > 0));
    } else {
        assert(k =~= e);
    }
}

/// Smallest x coordinate among `bs` (meaningful for a nonempty set).
pub open spec fn min_x(bs: Seq<StaticMassPoint>) -> int
    recommends
        bs.len() > 0,
    decreases bs.len(),
{
    if bs.len() <= 1 {
        bs[0].position.x as int
    } else {
        let m = min_x(bs.drop_last());
        if (bs.last().position.x as int) < m {
            bs.last().position.x as int
        } else {
            m
        }
    }
}

/// Largest x coordinate among `bs`.
pub open spec fn max_x(bs: Seq<StaticMassPoint>) -> int
    recommends
        bs.len() > 0,
    decreases bs.len(),
{
    if bs.len() <= 1 {
        bs[0].position.x as int
    } else {
        let m = max_x(bs.drop_last());
        if (bs.last().position.x as int) > m {
            bs.last().position.x as int
        } else {
            m
        }
    }
}

/// Smallest y coordinate among `bs`.
pub open spec fn min_y(bs: Seq<StaticMassPoint>) -> int
    recommends
        bs.len() > 0,
    decreases bs.len(),
{
    if bs.len() <= 1 {
        bs[0].position.y as int
    } else {
        let m = min_y(bs.drop_last());
        if (bs.last().position.y as int) < m {
            bs.last().position.y as int
        } else {
            m
        }
    }
}

/// Largest y coordinate among `bs`.
pub open spec fn max_y(bs: Seq<StaticMassPoint>) -> int
    recommends
        bs.len() > 0,
    decreases bs.len(),
{
    if bs.len() <= 1 {
        bs[0].position.y as int
    } else {
        let m = max_y(bs.drop_last());
        if (bs.last().position.y as int) > m {
            bs.last().position.y as int
        } else {
            m
        }
    }
}

/// The root region's center on the x axis: the bounding box midpoint.
pub open spec fn root_gc_x(bs: Seq<StaticMassPoint>) -> int {
    tdiv(min_x(bs) + max_x(bs), 2)
}

/// The root region's center on the y axis.
pub open spec fn root_gc_y(bs: Seq<StaticMassPoint>) -> int {
    tdiv(min_y(bs) + max_y(bs), 2)
}

/// The root region's extent on the x axis: the bounding box size.
pub open spec fn root_len_x(bs: Seq<StaticMassPoint>) -> int {
    max_x(bs) - min_x(bs)
}

/// The root region's extent on the y axis.
pub open spec fn root_len_y(bs: Seq<StaticMassPoint>) -> int {
    max_y(bs) - min_y(bs)
}

/// The whole tree a point set produces: the bounding-box root region,
/// recursively subdivided with the full depth budget.  Zero points give
/// the degenerate all-zero region.
pub open spec fn sim_tree(bs: Seq<StaticMassPoint>) -> NodeModel {
    if bs.len() == 0 {
        build_node(0, 0, 0, 0, bs, MAX_DEPTH as nat)
    } else {
        build_node(root_gc_x(bs), root_gc_y(bs), root_len_x(bs), root_len_y(bs), bs, MAX_DEPTH as nat)
    }
}

/// Viewing a pushed node appends its model.
proof fn lemma_kids_view_push(s: Seq<TreeNode<Rect>>, c: TreeNode<Rect>)
    ensures
        kids_view(s.push(c)) == kids_view(s).push(node_view(c)),
{
    assert(s.push(c).drop_last() =~= s);
    assert(s.push(c).last() == c);
}

/// `kids_view` maps index-wise.
proof fn lemma_kids_view_index(s: Seq<TreeNode<Rect>>)
    ensures
        kids_view(s).len() == s.len(),
        forall|i: int| 0 <= i < s.len() ==> #[trigger] kids_view(s)[i] == node_view(s[i]),
    decreases s.len(),
{
    if s.len() > 0 {
        lemma_kids_view_index(s.drop_last());
        assert forall|i: int| 0 <= i < s.len() implies #[trigger] kids_view(s)[i] == node_view(
            s[i],
        ) by {
            if i < s.len() - 1 {
                assert(kids_view(s)[i] == kids_view(s.drop_last())[i]);
                assert(s.drop_last()[i] == s[i]);
            } else {
                assert(kids_view(s)[i] == node_view(s.last()));
            }
        }
    }
}

/// Every element of a well-formed child list is well-formed.
proof fn lemma_kids_ok_index(s: Seq<NodeModel>, i: int)
    requires
        kids_ok(s),
        0 <= i < s.len(),
    ensures
        model_ok(s[i]),
        s[i].mass > 0,
    decreases s.len(),
{
    if i == s.len() - 1 {
        assert(s.last() == s[i]);
    } else {
        assert(s.drop_last()[i] == s[i]);
        lemma_kids_ok_index(s.drop_last(), i);
    }
}

/// Appending one node extends the child sums by its contribution.
proof fn lemma_kids_sums_push(s: Seq<NodeModel>, x: NodeModel)
    ensures
        kids_mass_sum(s.push(x)) == kids_mass_sum(s) + x.mass,
        kids_wsum_x(s.push(x)) == kids_wsum_x(s) + x.mass * x.com_x,
        kids_wsum_y(s.push(x)) == kids_wsum_y(s) + x.mass * x.com_y,
{
    assert(s.push(x).drop_last() =~= s);
    assert(s.push(x).last() == x);
}

/// A prefix of the child mass sum never exceeds the whole.
proof fn lemma_kids_mass_prefix_le(s: Seq<NodeModel>, i: int)
    requires
        kids_ok(s),
        0 <= i <= s.len(),
    ensures
        0 <= kids_mass_sum(s.subrange(0, i)) <= kids_mass_sum(s),
    decreases s.len() - i,
{
    lemma_kids_prefix_nonneg(s, i);
    if i == s.len() {
        assert(s.subrange(0, i) =~= s);
    } else {
        assert(s.subrange(0, i + 1) =~= s.subrange(0, i).push(s[i]));
        lemma_kids_sums_push(s.subrange(0, i), s[i]);
        lemma_kids_ok_index(s, i);
        lemma_kids_mass_prefix_le(s, i + 1);
    }
}

/// A prefix of a well-formed child list has a nonnegative mass sum.
proof fn lemma_kids_prefix_nonneg(s: Seq<NodeModel>, i: int)
    requires
        kids_ok(s),
        0 <= i <= s.len(),
    ensures
        kids_mass_sum(s.subrange(0, i)) >= 0,
    decreases i,
{
    if i == 0 {
        assert(s.subrange(0, 0) =~= Seq::<NodeModel>::empty());
    } else {
        assert(s.subrange(0, i - 1).push(s[i - 1]) =~= s.subrange(0, i));
        lemma_kids_sums_push(s.subrange(0, i - 1), s[i - 1]);
        lemma_kids_ok_index(s, i - 1);
        lemma_kids_prefix_nonneg(s, i - 1);
    }
}

/// Build the root node of a fresh tree: the bounding box of all point
/// positions, with the zero aggregate (degenerate all-zero region for an
/// empty set).
pub fn construct_root(mass_points: &Vec<StaticMassPoint>) -> (root: TreeNode<Rect>)
    requires
        bodies_ok(mass_points@),
    ensures
        root.children@.len() == 0,
        root.data.mass == 0,
        root.data.mass_center.x == 0 && root.data.mass_center.y == 0,
        mass_points@.len() == 0 ==> root.data.geometric_center.x == 0
            && root.data.geometric_center.y == 0 && root.data.length.x == 0 && root.data.length.y
            == 0,
        mass_points@.len() > 0 ==> root.data.geometric_center.x == root_gc_x(mass_points@)
            && root.data.geometric_center.y == root_gc_y(mass_points@) && root.data.length.x
            == root_len_x(mass_points@) && root.data.length.y == root_len_y(mass_points@),
        geom_ok(
            root.data.geometric_center.x as int,
            root.data.geometric_center.y as int,
            root.data.length.x as int,
            root.data.length.y as int,
        ),
{
    let ghost bs = mass_points@;
    let n: usize = mass_points.len();
    if n == 0 {
        let rect = Rect::new(0, Vec2::zero(), Vec2::zero(), Vec2::zero());
        TreeNode::root(rect)
    } else {
        let mut mnx: i64 = mass_points[0].position.x;
        let mut mxx: i64 = mass_points[0].position.x;
        let mut mny: i64 = mass_points[0].position.y;
        let mut mxy: i64 = mass_points[0].position.y;
        proof {
            assert(bs.subrange(0, 1).len() == 1);
            assert(bs.subrange(0, 1)[0] == bs[0]);
            assert(bs[0].mass > 0);
        }
        for i in 1..n
            invariant
                n == bs.len(),
                bs == mass_points@,
                bodies_ok(bs),
                1 <= i <= n,
                mnx == min_x(bs.subrange(0, i as int)),
                mxx == max_x(bs.subrange(0, i as int)),
                mny == min_y(bs.subrange(0, i as int)),
                mxy == max_y(bs.subrange(0, i as int)),
                -LIMIT <= mnx <= mxx <= LIMIT,
                -LIMIT <= mny <= mxy <= LIMIT,
        {
            let p = mass_points[i];
            proof {
                assert(bs[i as int].mass > 0);
                assert(bs.subrange(0, i + 1).drop_last() =~= bs.subrange(0, i as int));
                assert(bs.subrange(0, i + 1).last() == bs[i as int]);
                assert(bs.subrange(0, i + 1).len() == i + 1 >= 2);
            }
            if p.position.x < mnx {
                mnx = p.position.x;
            }
            if p.position.x > mxx {
                mxx = p.position.x;
            }
            if p.position.y < mny {
                mny = p.position.y;
            }
            if p.position.y > mxy {
                mxy = p.position.y;
            }
        }
        proof {
            assert(bs.subrange(0, n as int) =~= bs);
            lemma_tdiv_bound((mnx + mxx) as int, 2, LIMIT as int);
            lemma_tdiv_bound((mny + mxy) as int, 2, LIMIT as int);
        }
        let cx: i64 = tdiv_i64(mnx + mxx, 2);
        let cy: i64 = tdiv_i64(mny + mxy, 2);
        let center = Vec2 { x: cx, y: cy };
        let length = Vec2 { x: mxx - mnx, y: mxy - mny };
        let rect = Rect::new(0, Vec2::zero(), center, length);
        TreeNode::root(rect)
    }
}

/// Recursively partition `mass_points` into the quadrants of `rect`,
/// build a child for every non-empty quadrant, and aggregate mass and
/// center of mass bottom-up.  The produced tree is exactly
/// [`build_node`] of the node's region and the points.
#[verifier::rlimit(100)]
pub fn construct_tree(rect: &mut TreeNode<Rect>, mass_points: Vec<StaticMassPoint>, depth: u32)
    requires
        old(rect).children@.len() == 0,
        old(rect).data.mass == 0,
        old(rect).data.mass_center.x == 0 && old(rect).data.mass_center.y == 0,
        bodies_ok(mass_points@),
        geom_ok(
            old(rect).data.geometric_center.x as int,
            old(rect).data.geometric_center.y as int,
            old(rect).data.length.x as int,
            old(rect).data.length.y as int,
        ),
    ensures
        node_view(*final(rect)) == build_node(
            old(rect).data.geometric_center.x as int,
            old(rect).data.geometric_center.y as int,
            old(rect).data.length.x as int,
            old(rect).data.length.y as int,
            mass_points@,
            depth as nat,
        ),
    decreases depth,
{
    let ghost bs = mass_points@;
    let ghost gcx = old(rect).data.geometric_center.x as int;
    let ghost gcy = old(rect).data.geometric_center.y as int;
    let ghost lenx = old(rect).data.length.x as int;
    let ghost leny = old(rect).data.length.y as int;
    let ghost target = build_node(gcx, gcy, lenx, leny, bs, depth as nat);
    let n: usize = mass_points.len();
    if n == 0 {
        proof {
            assert(kids_view(rect.children@) =~= Seq::<NodeModel>::empty());
            assert(node_view(*rect) =~= target);
        }
    } else if n == 1 {
        let m = mass_points[0];
        rect.data.mass = m.mass;
        rect.data.mass_center = m.position;
        proof {
            assert(kids_view(rect.children@) =~= Seq::<NodeModel>::empty());
            assert(node_view(*rect) =~= target);
        }
    } else if depth == 0 {
        let mut msum: i64 = 0;
        let mut wx: i128 = 0;
        let mut wy: i128 = 0;
        proof {
            assert(bs.subrange(0, 0) =~= Seq::<StaticMassPoint>::empty());
        }
        for i in 0..n
            invariant
                n == bs.len(),
                bs == mass_points@,
                bodies_ok(bs),
                msum == mass_sum(bs.subrange(0, i as int)),
                wx == wsum_x(bs.subrange(0, i as int)),
                wy == wsum_y(bs.subrange(0, i as int)),
                0 <= msum,
                abs(wx as int) <= msum * LIMIT,
                abs(wy as int) <= msum * LIMIT,
        {
            let p = mass_points[i];
            proof {
                assert(bs[i as int].mass > 0 && abs(bs[i as int].position.x as int) <= LIMIT && abs(
                    bs[i as int].position.y as int,
                ) <= LIMIT);
                assert(bs.subrange(0, i + 1) =~= bs.subrange(0, i as int).push(bs[i as int]));
                lemma_point_sums_push(bs.subrange(0, i as int), bs[i as int]);
                lemma_mass_sum_prefix_le(bs, i + 1);
                assert(abs(wx + (p.mass as i128) * (p.position.x as i128)) <= (msum + p.mass)
                    * LIMIT) by (nonlinear_arith)
                    requires
                        abs(wx as int) <= msum * LIMIT,
                        p.mass >= 0,
                        abs(p.position.x as int) <= LIMIT,
                        LIMIT > 0;
                assert(abs(wy + (p.mass as i128) * (p.position.y as i128)) <= (msum + p.mass)
                    * LIMIT) by (nonlinear_arith)
                    requires
                        abs(wy as int) <= msum * LIMIT,
                        p.mass >= 0,
                        abs(p.position.y as int) <= LIMIT,
                        LIMIT > 0;
                assert((msum + p.mass) * LIMIT <= i64::MAX * (LIMIT as int)) by (nonlinear_arith)
                    requires
                        msum + p.mass <= i64::MAX,
                        0 <= msum + p.mass,
                        LIMIT > 0;
            }
            msum = msum + p.mass;
            wx = wx + (p.mass as i128) * (p.position.x as i128);
            wy = wy + (p.mass as i128) * (p.position.y as i128);
        }
        proof {
            assert(bs.subrange(0, n as int) =~= bs);
            lemma_mass_sum_pos(bs);
            lemma_tdiv_bound(wx as int, msum as int, LIMIT as int);
            lemma_tdiv_bound(wy as int, msum as int, LIMIT as int);
            assert(msum * LIMIT == LIMIT * msum) by (nonlinear_arith);
        }
        let comx: i64 = tdiv_i128(wx, msum as i128) as i64;
        let comy: i64 = tdiv_i128(wy, msum as i128) as i64;
        rect.data.mass = msum;
        rect.data.mass_center = Vec2 { x: comx, y: comy };
        proof {
            assert(kids_view(rect.children@) =~= Seq::<NodeModel>::empty());
            assert(node_view(*rect) =~= target);
        }
    } else {
        let g: Rect = *rect.data();
        let mut q_lt: Vec<StaticMassPoint> = Vec::new();
        let mut q_lb: Vec<StaticMassPoint> = Vec::new();
        let mut q_rt: Vec<StaticMassPoint> = Vec::new();
        let mut q_rb: Vec<StaticMassPoint> = Vec::new();
        proof {
            reveal(Seq::filter);
            assert(bs.subrange(0, 0) =~= Seq::<StaticMassPoint>::empty());
        }
        for i in 0..n
            invariant
                n == bs.len(),
                bs == mass_points@,
                g.geometric_center.x as int == gcx,
                g.geometric_center.y as int == gcy,
                q_lt@ == bs.subrange(0, i as int).filter(
                    quad_pred(gcx, gcy, ChildRectLocation::LeftTop),
                ),
                q_lb@ == bs.subrange(0, i as int).filter(
                    quad_pred(gcx, gcy, ChildRectLocation::LeftBottom),
                ),
                q_rt@ == bs.subrange(0, i as int).filter(
                    quad_pred(gcx, gcy, ChildRectLocation::RightTop),
                ),
                q_rb@ == bs.subrange(0, i as int).filter(
                    quad_pred(gcx, gcy, ChildRectLocation::RightBottom),
                ),
        {
            let p = mass_points[i];
            proof {
                assert(bs.subrange(0, i + 1) =~= bs.subrange(0, i as int).push(bs[i as int]));
                lemma_filter_push(
                    bs.subrange(0, i as int),
                    quad_pred(gcx, gcy, ChildRectLocation::LeftTop),
                    bs[i as int],
                );
                lemma_filter_push(
                    bs.subrange(0, i as int),
                    quad_pred(gcx, gcy, ChildRectLocation::LeftBottom),
                    bs[i as int],
                );
                lemma_filter_push(
                    bs.subrange(0, i as int),
                    quad_pred(gcx, gcy, ChildRectLocation::RightTop),
                    bs[i as int],
                );
                lemma_filter_push(
                    bs.subrange(0, i as int),
                    quad_pred(gcx, gcy, ChildRectLocation::RightBottom),
                    bs[i as int],
                );
            }
            let loc = ChildRectLocation::locate(p.position, g.geometric_center);
            match loc {
                ChildRectLocation::LeftTop => q_lt.push(p),
                ChildRectLocation::LeftBottom => q_lb.push(p),
                ChildRectLocation::RightTop => q_rt.push(p),
                ChildRectLocation::RightBottom => q_rb.push(p),
            }
        }
        proof {
            assert(bs.subrange(0, n as int) =~= bs);
            lemma_quadrants_ok(bs, gcx, gcy);
            lemma_child_geom(gcx, gcy, lenx, leny, -1, -1);
            lemma_child_geom(gcx, gcy, lenx, leny, -1, 1);
            lemma_child_geom(gcx, gcy, lenx, leny, 1, -1);
            lemma_child_geom(gcx, gcy, lenx, leny, 1, 1);
        }
        let half_len = Vec2 { x: tdiv_i64(g.length.x, 2), y: tdiv_i64(g.length.y, 2) };
        let ghost d = (depth - 1) as nat;
        let ghost b_lt = build_node(
            child_center(gcx, lenx, -1),
            child_center(gcy, leny, -1),
            tdiv(lenx, 2),
            tdiv(leny, 2),
            quadrant_of(bs, gcx, gcy, ChildRectLocation::LeftTop),
            d,
        );
        let ghost b_lb = build_node(
            child_center(gcx, lenx, -1),
            child_center(gcy, leny, 1),
            tdiv(lenx, 2),
            tdiv(leny, 2),
            quadrant_of(bs, gcx, gcy, ChildRectLocation::LeftBottom),
            d,
        );
        let ghost b_rt = build_node(
            child_center(gcx, lenx, 1),
            child_center(gcy, leny, -1),
            tdiv(lenx, 2),
            tdiv(leny, 2),
            quadrant_of(bs, gcx, gcy, ChildRectLocation::RightTop),
            d,
        );
        let ghost b_rb = build_node(
            child_center(gcx, lenx, 1),
            child_center(gcy, leny, 1),
            tdiv(lenx, 2),
            tdiv(leny, 2),
            quadrant_of(bs, gcx, gcy, ChildRectLocation::RightBottom),
            d,
        );
        if q_lt.len() > 0 {
            let cgc = ChildRectLocation::LeftTop.to_geometric_center(&g);
            let mut child = TreeNode::root(Rect::new(0, Vec2::zero(), cgc, half_len));
            construct_tree(&mut child, q_lt, depth - 1);
            proof {
                lemma_kids_view_push(rect.children@, child);
            }
            rect.add_child(child);
        }
        if q_lb.len() > 0 {
            let cgc = ChildRectLocation::LeftBottom.to_geometric_center(&g);
            let mut child = TreeNode::root(Rect::new(0, Vec2::zero(), cgc, half_len));
            construct_tree(&mut child, q_lb, depth - 1);
            proof {
                lemma_kids_view_push(rect.children@, child);
            }
            rect.add_child(child);
        }
        if q_rt.len() > 0 {
            let cgc = ChildRectLocation::RightTop.to_geometric_center(&g);
            let mut child = TreeNode::root(Rect::new(0, Vec2::zero(), cgc, half_len));
            construct_tree(&mut child, q_rt, depth - 1);
            proof {
                lemma_kids_view_push(rect.children@, child);
            }
            rect.add_child(child);
        }
        if q_rb.len() > 0 {
            let cgc = ChildRectLocation::RightBottom.to_geometric_center(&g);
            let mut child = TreeNode::root(Rect::new(0, Vec2::zero(), cgc, half_len));
            construct_tree(&mut child, q_rb, depth - 1);
            proof {
                lemma_kids_view_push(rect.children@, child);
            }
            rect.add_child(child);
        }
        let ghost kids = target.kids;
        proof {
            assert(kids_view(Seq::<TreeNode<Rect>>::empty()) =~= Seq::<NodeModel>::empty());
            assert(kids_view(rect.children@) =~= kids);
            lemma_build_props(gcx, gcy, lenx, leny, bs, depth as nat);
            assert(model_ok(target));
            assert(kids_ok(kids));
            lemma_kids_view_index(rect.children@);
        }
        let kcount: usize = rect.children.len();
        let mut msum: i64 = 0;
        let mut wx: i128 = 0;
        let mut wy: i128 = 0;
        proof {
            assert(kids.subrange(0, 0) =~= Seq::<NodeModel>::empty());
        }
        for i in 0..kcount
            invariant
                kcount == rect.children@.len(),
                kids_view(rect.children@) == kids,
                kids_ok(kids),
                kids.len() == kcount,
                kids_mass_sum(kids) <= i64::MAX,
                msum == kids_mass_sum(kids.subrange(0, i as int)),
                wx == kids_wsum_x(kids.subrange(0, i as int)),
                wy == kids_wsum_y(kids.subrange(0, i as int)),
                0 <= msum,
                abs(wx as int) <= msum * LIMIT,
                abs(wy as int) <= msum * LIMIT,
                forall|j: int|
                    0 <= j < kids.len() ==> #[trigger] kids_view(rect.children@)[j] == node_view(
                        rect.children@[j],
                    ),
        {
            let c_mass: i64 = rect.children[i].data.mass;
            let c_comx: i64 = rect.children[i].data.mass_center.x;
            let c_comy: i64 = rect.children[i].data.mass_center.y;
            proof {
                assert(kids_view(rect.children@)[i as int] == node_view(rect.children@[i as int]));
                assert(kids[i as int].mass == c_mass as int);
                assert(kids[i as int].com_x == c_comx as int);
                assert(kids[i as int].com_y == c_comy as int);
                lemma_kids_ok_index(kids, i as int);
                assert(kids.subrange(0, i + 1) =~= kids.subrange(0, i as int).push(kids[i as int]));
                lemma_kids_sums_push(kids.subrange(0, i as int), kids[i as int]);
                lemma_kids_mass_prefix_le(kids, i + 1);
                assert(abs(wx + (c_mass as i128) * (c_comx as i128)) <= (msum + c_mass) * LIMIT)
                    by (nonlinear_arith)
                    requires
                        abs(wx as int) <= msum * LIMIT,
                        c_mass >= 0,
                        abs(c_comx as int) <= LIMIT,
                        LIMIT > 0;
                assert(abs(wy + (c_mass as i128) * (c_comy as i128)) <= (msum + c_mass) * LIMIT)
                    by (nonlinear_arith)
                    requires
                        abs(wy as int) <= msum * LIMIT,
                        c_mass >= 0,
                        abs(c_comy as int) <= LIMIT,
                        LIMIT > 0;
                assert((msum + c_mass) * LIMIT <= i64::MAX * (LIMIT as int)) by (nonlinear_arith)
                    requires
                        msum + c_mass <= i64::MAX,
                        0 <= msum + c_mass,
                        LIMIT > 0;
            }
            msum = msum + c_mass;
            wx = wx + (c_mass as i128) * (c_comx as i128);
            wy = wy + (c_mass as i128) * (c_comy as i128);
        }
        proof {
            assert(kids.subrange(0, kcount as int) =~= kids);
            assert(msum == kids_mass_sum(kids));
            assert(msum == target.mass);
            assert(msum > 0);
            lemma_tdiv_bound(wx as int, msum as int, LIMIT as int);
            lemma_tdiv_bound(wy as int, msum as int, LIMIT as int);
            assert(msum * LIMIT == LIMIT * msum) by (nonlinear_arith);
        }
        assert(msum > 0);
        let comx: i64 = tdiv_i128(wx, msum as i128) as i64;
        let comy: i64 = tdiv_i128(wy, msum as i128) as i64;
        rect.data.mass = msum;
        rect.data.mass_center = Vec2 { x: comx, y: comy };
        proof {
            assert(node_view(*rect) =~= target);
        }
    }
}

/// The softened Newtonian contribution of an aggregate body at
/// `(comx, comy)` with mass `mass` on a query point at `(qx, qy)`:
/// the unit direction toward the body (normalized by the rounded-down
/// distance) times `g * mass / (distance^2 + cutoff^2)`, where the raw,
/// un-shifted squared separation is used.
pub open spec fn accel_term(
    qx: int,
    qy: int,
    comx: int,
    comy: int,
    mass: int,
    g: int,
    cutoff: int,
) -> (int, int) {
    let dx = comx - qx;
    let dy = comy - qy;
    let d2 = dx * dx + dy * dy;
    let d = sqrt_floor(d2);
    let nx = tdiv(dx * SCALE, d);
    let ny = tdiv(dy * SCALE, d);
    let mag = tdiv(g * mass * SCALE, d2 + cutoff * cutoff);
    (tdiv(nx * mag, SCALE as int), tdiv(ny * mag, SCALE as int))
}

/// The traversal decision: the query point is far enough from the node
/// that its contents may be aggregated.  Both squared quantities carry
/// the reference design's additive `+1` offset (one squared unit), kept
/// as a literal behavioral contract.
pub open spec fn far_enough(qx: int, qy: int, n: NodeModel, theta: int) -> bool {
    let dx = n.com_x - qx;
    let dy = n.com_y - qy;
    let norm2 = dx * dx + dy * dy + SCALE2;
    let len2 = n.len_x * n.len_x + n.len_y * n.len_y + SCALE2;
    norm2 * SCALE > theta * len2
}

/// The acceleration the Barnes-Hut traversal of `n` contributes to a
/// query point at `(qx, qy)`: an aggregate term when the node is far
/// enough or a leaf (zero if its center of mass coincides with the
/// query point), else the sum over the children.
pub open spec fn accel_model(
    qx: int,
    qy: int,
    n: NodeModel,
    g: int,
    theta: int,
    cutoff: int,
) -> (int, int)
    decreases n,
{
    if far_enough(qx, qy, n, theta) || n.kids.len() == 0 {
        if n.com_x == qx && n.com_y == qy {
            (0, 0)
        } else {
            accel_term(qx, qy, n.com_x, n.com_y, n.mass, g, cutoff)
        }
    } else {
        kids_accel_sum(qx, qy, n.kids, g, theta, cutoff)
    }
}

/// The summed contributions of a child list.
pub open spec fn kids_accel_sum(
    qx: int,
    qy: int,
    kids: Seq<NodeModel>,
    g: int,
    theta: int,
    cutoff: int,
) -> (int, int)
    decreases kids,
{
    if kids.len() == 0 {
        (0, 0)
    } else {
        let rest = kids_accel_sum(qx, qy, kids.drop_last(), g, theta, cutoff);
        let lastv = accel_model(qx, qy, kids.last(), g, theta, cutoff);
        (rest.0 + lastv.0, rest.1 + lastv.1)
    }
}

/// One aggregate term is bounded by `g * mass * SCALE`.
proof fn lemma_accel_term_bound(
    qx: int,
    qy: int,
    comx: int,
    comy: int,
    mass: int,
    g: int,
    cutoff: int,
)
    requires
        comx != qx || comy != qy,
        mass >= 0,
        g >= 0,
        cutoff >= 0,
    ensures
        abs(accel_term(qx, qy, comx, comy, mass, g, cutoff).0) <= g * mass * SCALE,
        abs(accel_term(qx, qy, comx, comy, mass, g, cutoff).1) <= g * mass * SCALE,
        g * mass * SCALE >= 0,
{
    let dx = comx - qx;
    let dy = comy - qy;
    let d2 = dx * dx + dy * dy;
    assert(d2 >= 1 && dx * dx <= d2 && dy * dy <= d2) by (nonlinear_arith)
        requires
            d2 == dx * dx + dy * dy,
            dx != 0 || dy != 0;
    crate::fixed::lemma_sqrt_floor(d2);
    let d = sqrt_floor(d2);
    assert(d >= 1);
    assert(abs(dx) <= d && abs(dy) <= d) by (nonlinear_arith)
        requires
            dx * dx <= d2,
            dy * dy <= d2,
            d2 < (d + 1) * (d + 1),
            d >= 0;
    let nx = tdiv(dx * SCALE, d);
    let ny = tdiv(dy * SCALE, d);
    assert(-(SCALE * d) <= dx * SCALE <= SCALE * d && -(SCALE * d) <= dy * SCALE <= SCALE * d)
        by (nonlinear_arith)
        requires
            abs(dx) <= d,
            abs(dy) <= d,
            SCALE > 0;
    lemma_tdiv_bound(dx * SCALE, d, SCALE as int);
    lemma_tdiv_bound(dy * SCALE, d, SCALE as int);
    let num = g * mass * SCALE;
    let c2 = cutoff * cutoff;
    let den = d2 + c2;
    assert(c2 >= 0 && num >= 0 && den >= 1) by (nonlinear_arith)
        requires
            c2 == cutoff * cutoff,
            num == g * mass * SCALE,
            den == d2 + c2,
            d2 >= 1,
            cutoff >= 0,
            SCALE == 1_000_000,
            g >= 0,
            mass >= 0;
    let mag = tdiv(num, den);
    crate::fixed::lemma_tdiv_in_range(num, den);
    assert(0 <= mag <= num);
    assert(-(SCALE * mag) <= nx * mag <= SCALE * mag && -(SCALE * mag) <= ny * mag <= SCALE * mag)
        by (nonlinear_arith)
        requires
            abs(nx) <= SCALE,
            abs(ny) <= SCALE,
            mag >= 0;
    lemma_tdiv_bound(nx * mag, SCALE as int, mag);
    lemma_tdiv_bound(ny * mag, SCALE as int, mag);
}

/// The traversal's result for a well-formed node is bounded by
/// `g * mass * SCALE`.
pub proof fn lemma_accel_bound(qx: int, qy: int, n: NodeModel, g: int, theta: int, cutoff: int)
    requires
        model_ok(n),
        g >= 0,
        cutoff >= 0,
    ensures
        abs(accel_model(qx, qy, n, g, theta, cutoff).0) <= g * n.mass * SCALE,
        abs(accel_model(qx, qy, n, g, theta, cutoff).1) <= g * n.mass * SCALE,
        g * n.mass * SCALE >= 0,
    decreases n,
{
    assert(g * n.mass * SCALE >= 0) by (nonlinear_arith)
        requires
            g >= 0,
            n.mass >= 0;
    if far_enough(qx, qy, n, theta) || n.kids.len() == 0 {
        if n.com_x == qx && n.com_y == qy {
        } else {
            lemma_accel_term_bound(qx, qy, n.com_x, n.com_y, n.mass, g, cutoff);
        }
    } else {
        lemma_kids_accel_bound(qx, qy, n.kids, g, theta, cutoff);
    }
}

/// The summed contributions of a well-formed child list are bounded by
/// `g * total child mass / SCALE`.
pub proof fn lemma_kids_accel_bound(
    qx: int,
    qy: int,
    kids: Seq<NodeModel>,
    g: int,
    theta: int,
    cutoff: int,
)
    requires
        kids_ok(kids),
        g >= 0,
        cutoff >= 0,
    ensures
        abs(kids_accel_sum(qx, qy, kids, g, theta, cutoff).0) <= g * kids_mass_sum(kids) * SCALE,
        abs(kids_accel_sum(qx, qy, kids, g, theta, cutoff).1) <= g * kids_mass_sum(kids) * SCALE,
        kids_mass_sum(kids) >= 0,
        g * kids_mass_sum(kids) * SCALE >= 0,
    decreases kids,
{
    if kids.len() == 0 {
        assert(g * kids_mass_sum(kids) * SCALE == 0) by (nonlinear_arith)
            requires
                kids_mass_sum(kids) == 0;
    } else {
        let p = kids.drop_last();
        let x = kids.last();
        lemma_kids_accel_bound(qx, qy, p, g, theta, cutoff);
        lemma_accel_bound(qx, qy, x, g, theta, cutoff);
        assert(g * kids_mass_sum(kids) * SCALE == g * kids_mass_sum(p) * SCALE + g * x.mass
            * SCALE) by (nonlinear_arith)
            requires
                kids_mass_sum(kids) == kids_mass_sum(p) + x.mass;
    }
}

/// Within a well-formed child list, each child's mass is at most the
/// whole list's.
proof fn lemma_kid_mass_le(kids: Seq<NodeModel>, i: int)
    requires
        kids_ok(kids),
        0 <= i < kids.len(),
    ensures
        kids[i].mass <= kids_mass_sum(kids),
    decreases kids.len(),
{
    let p = kids.drop_last();
    let x = kids.last();
    if i == kids.len() - 1 {
        lemma_kids_prefix_nonneg(kids, kids.len() - 1);
        assert(p =~= kids.subrange(0, kids.len() - 1));
    } else {
        assert(p[i] == kids[i]);
        lemma_kid_mass_le(p, i);
        lemma_kids_ok_index(kids, kids.len() - 1);
    }
}

/// Appending one child extends the contribution sum by its model value.
proof fn lemma_kids_accel_push(
    qx: int,
    qy: int,
    s: Seq<NodeModel>,
    x: NodeModel,
    g: int,
    theta: int,
    cutoff: int,
)
    ensures
        kids_accel_sum(qx, qy, s.push(x), g, theta, cutoff).0 == kids_accel_sum(
            qx,
            qy,
            s,
            g,
            theta,
            cutoff,
        ).0 + accel_model(qx, qy, x, g, theta, cutoff).0,
        kids_accel_sum(qx, qy, s.push(x), g, theta, cutoff).1 == kids_accel_sum(
            qx,
            qy,
            s,
            g,
            theta,
            cutoff,
        ).1 + accel_model(qx, qy, x, g, theta, cutoff).1,
{
    assert(s.push(x).drop_last() =~= s);
    assert(s.push(x).last() == x);
}

/// A prefix of a well-formed child list is well-formed.
proof fn lemma_kids_ok_prefix(s: Seq<NodeModel>, i: int)
    requires
        kids_ok(s),
        0 <= i <= s.len(),
    ensures
        kids_ok(s.subrange(0, i)),
    decreases s.len() - i,
{
    if i == s.len() {
        assert(s.subrange(0, i) =~= s);
    } else {
        lemma_kids_ok_prefix(s, i + 1);
        assert(s.subrange(0, i + 1).drop_last() =~= s.subrange(0, i));
    }
}

/// `g * m <= g * total` for masses under the total and `g >= 0`, and
/// the acceleration bound `g * m * SCALE` stays far inside the `i128`
/// range when `g * total <= SCALE * i64::MAX`.
proof fn lemma_gm_bounds(g: int, m: int, total: int)
    requires
        g >= 0,
        0 <= m <= total,
        g * total <= SCALE * (i64::MAX as int),
    ensures
        0 <= g * m <= g * total,
        0 <= g * m * SCALE <= 0x100_0000_0000_0000_0000_0000_0000,
        0 <= g * total * SCALE <= 0x100_0000_0000_0000_0000_0000_0000,
{
    assert(0 <= g * m && g * m <= g * total) by (nonlinear_arith)
        requires
            g >= 0,
            0 <= m <= total;
    assert(0 <= g * m * SCALE <= 0x100_0000_0000_0000_0000_0000_0000 && 0 <= g * total * SCALE
        <= 0x100_0000_0000_0000_0000_0000_0000) by (nonlinear_arith)
        requires
            0 <= g * m <= g * total,
            g * total <= SCALE * (i64::MAX as int),
            SCALE == 1_000_000;
}

/// The softened Newtonian pull of the aggregate `applier` on `receiver`,
/// exactly [`accel_term`].
pub fn accel_between(
    receiver: StaticMassPoint,
    applier: &Rect,
    gravity_constant: i64,
    gravity_cutoff: i64,
) -> (a: (i128, i128))
    requires
        applier.mass >= 0,
        abs(applier.mass_center.x as int) <= LIMIT,
        abs(applier.mass_center.y as int) <= LIMIT,
        abs(receiver.position.x as int) <= LIMIT,
        abs(receiver.position.y as int) <= LIMIT,
        applier.mass_center.x != receiver.position.x || applier.mass_center.y
            != receiver.position.y,
        gravity_constant >= 0,
        0 <= gravity_cutoff <= LIMIT,
        gravity_constant * applier.mass <= SCALE * (i64::MAX as int),
    ensures
        a.0 == accel_term(
            receiver.position.x as int,
            receiver.position.y as int,
            applier.mass_center.x as int,
            applier.mass_center.y as int,
            applier.mass as int,
            gravity_constant as int,
            gravity_cutoff as int,
        ).0,
        a.1 == accel_term(
            receiver.position.x as int,
            receiver.position.y as int,
            applier.mass_center.x as int,
            applier.mass_center.y as int,
            applier.mass as int,
            gravity_constant as int,
            gravity_cutoff as int,
        ).1,
        abs(a.0 as int) <= gravity_constant * applier.mass * SCALE,
        abs(a.1 as int) <= gravity_constant * applier.mass * SCALE,
{
    let dx: i128 = (applier.mass_center.x as i128) - (receiver.position.x as i128);
    let dy: i128 = (applier.mass_center.y as i128) - (receiver.position.y as i128);
    proof {
        assert(dx * dx + dy * dy >= 1 && dx * dx <= dx * dx + dy * dy && dy * dy <= dx * dx + dy
            * dy && dx * dx + dy * dy < 0x100_0000_0000_0000_0000_0000_0000 as int)
            by (nonlinear_arith)
            requires
                dx != 0 || dy != 0,
                abs(dx as int) <= 2 * LIMIT,
                abs(dy as int) <= 2 * LIMIT,
                LIMIT == 0x4_0000_0000_0000;
    }
    let d2: i128 = dx * dx + dy * dy;
    let d2u: u128 = d2 as u128;
    proof {
        assert(d2u as int == d2 as int);
    }
    let du: u128 = isqrt_u128(d2u);
    proof {
        assert(du * du <= d2 as int && (d2 as int) < (du + 1) * (du + 1));
        assert(du < 0x1_0000_0000_0000_0000) by (nonlinear_arith)
            requires
                du * du <= d2u,
                d2u < 0x1_0000_0000_0000_0000_0000_0000_0000_0000;
        if du == 0 {
            assert(d2 < 1) by (nonlinear_arith)
                requires
                    du == 0,
                    (d2 as int) < (du as int + 1) * (du as int + 1);
            assert(false);
        }
        assert(abs(dx as int) <= du as int && abs(dy as int) <= du as int) by (nonlinear_arith)
            requires
                dx * dx <= d2 as int,
                dy * dy <= d2 as int,
                (d2 as int) < (du as int + 1) * (du as int + 1),
                du as int >= 0;
        assert(du as int == sqrt_floor(d2 as int));
    }
    let d: i128 = du as i128;
    proof {
        assert(-((SCALE as int) * (d as int)) <= (dx as int) * (SCALE as int) <= (SCALE as int) * (
        d as int) && -((SCALE as int) * (d as int)) <= (dy as int) * (SCALE as int) <= (
        SCALE as int) * (d as int)) by (nonlinear_arith)
            requires
                abs(dx as int) <= d as int,
                abs(dy as int) <= d as int,
                SCALE > 0;
        lemma_tdiv_bound((dx as int) * (SCALE as int), d as int, SCALE as int);
        lemma_tdiv_bound((dy as int) * (SCALE as int), d as int, SCALE as int);
    }
    let nx: i128 = tdiv_i128(dx * (SCALE as i128), d);
    let ny: i128 = tdiv_i128(dy * (SCALE as i128), d);
    proof {
        assert(0 <= (gravity_cutoff as int) * (gravity_cutoff as int)
            <= 0x10_0000_0000_0000_0000_0000_0000) by (nonlinear_arith)
            requires
                0 <= gravity_cutoff <= LIMIT,
                LIMIT == 0x4_0000_0000_0000;
    }
    let c2: i128 = (gravity_cutoff as i128) * (gravity_cutoff as i128);
    let den: i128 = d2 + c2;
    let gm: i128 = (gravity_constant as i128) * (applier.mass as i128);
    proof {
        assert(0 <= gm * (SCALE as int) <= SCALE * (i64::MAX as int) * SCALE) by (nonlinear_arith)
            requires
                0 <= gm as int <= SCALE * (i64::MAX as int),
                SCALE == 1_000_000;
        assert(gm >= 0) by (nonlinear_arith)
            requires
                gravity_constant >= 0,
                applier.mass >= 0,
                gm == (gravity_constant as int) * (applier.mass as int);
    }
    let num: i128 = gm * (SCALE as i128);
    let mag: i128 = tdiv_i128(num, den);
    proof {
        assert(num as int == (gravity_constant as int) * (applier.mass as int) * SCALE)
            by (nonlinear_arith)
            requires
                num as int == (gm as int) * SCALE,
                gm as int == (gravity_constant as int) * (applier.mass as int);
        assert(0 <= mag as int <= gravity_constant * applier.mass * SCALE);
        assert(-((SCALE as int) * (mag as int)) <= (nx as int) * (mag as int) <= (SCALE as int) * (
        mag as int) && -((SCALE as int) * (mag as int)) <= (ny as int) * (mag as int) <= (
        SCALE as int) * (mag as int)) by (nonlinear_arith)
            requires
                abs(nx as int) <= SCALE as int,
                abs(ny as int) <= SCALE as int,
                mag as int >= 0;
        lemma_tdiv_bound((nx as int) * (mag as int), SCALE as int, mag as int);
        lemma_tdiv_bound((ny as int) * (mag as int), SCALE as int, mag as int);
    }
    let ax: i128 = tdiv_i128(nx * mag, SCALE as i128);
    let ay: i128 = tdiv_i128(ny * mag, SCALE as i128);
    (ax, ay)
}

/// Traverse the tree for one query point: treat a far-enough node or a
/// leaf as a single aggregate body, else recurse into every child and
/// sum; exactly [`accel_model`].
#[verifier::rlimit(100)]
pub fn calculate_accel(
    mass_point: StaticMassPoint,
    rect: &TreeNode<Rect>,
    gravity_constant: i64,
    gravity_cutoff: i64,
    minimum_ratio_for_integration: i64,
) -> (a: (i128, i128))
    requires
        model_ok(node_view(*rect)),
        abs(mass_point.position.x as int) <= LIMIT,
        abs(mass_point.position.y as int) <= LIMIT,
        gravity_constant >= 0,
        minimum_ratio_for_integration >= 0,
        0 <= gravity_cutoff <= LIMIT,
        gravity_constant * node_view(*rect).mass <= SCALE * (i64::MAX as int),
    ensures
        a.0 == accel_model(
            mass_point.position.x as int,
            mass_point.position.y as int,
            node_view(*rect),
            gravity_constant as int,
            minimum_ratio_for_integration as int,
            gravity_cutoff as int,
        ).0,
        a.1 == accel_model(
            mass_point.position.x as int,
            mass_point.position.y as int,
            node_view(*rect),
            gravity_constant as int,
            minimum_ratio_for_integration as int,
            gravity_cutoff as int,
        ).1,
        abs(a.0 as int) <= gravity_constant * node_view(*rect).mass * SCALE,
        abs(a.1 as int) <= gravity_constant * node_view(*rect).mass * SCALE,
    decreases *rect,
{
    let ghost nv = node_view(*rect);
    let ghost qxg = mass_point.position.x as int;
    let ghost qyg = mass_point.position.y as int;
    let ghost gg = gravity_constant as int;
    let ghost tg = minimum_ratio_for_integration as int;
    let ghost cg = gravity_cutoff as int;
    proof {
        lemma_accel_bound(qxg, qyg, nv, gg, tg, cg);
    }
    let dx: i128 = (rect.data.mass_center.x as i128) - (mass_point.position.x as i128);
    let dy: i128 = (rect.data.mass_center.y as i128) - (mass_point.position.y as i128);
    proof {
        assert(0 <= dx * dx && 0 <= dy * dy && dx * dx + dy * dy
            <= 0x80_0000_0000_0000_0000_0000_0000 as int) by (nonlinear_arith)
            requires
                abs(dx as int) <= 2 * LIMIT,
                abs(dy as int) <= 2 * LIMIT,
                LIMIT == 0x4_0000_0000_0000;
    }
    let norm2: i128 = dx * dx + dy * dy + (SCALE2 as i128);
    proof {
        assert(0 <= norm2 && (norm2 as int) <= 0x100_0000_0000_0000_0000_0000_0000);
    }
    let lx: i128 = rect.data.length.x as i128;
    let ly: i128 = rect.data.length.y as i128;
    proof {
        assert(abs(lx as int) <= GEOM_LIMIT && abs(ly as int) <= GEOM_LIMIT);
        assert(0 <= lx * lx && 0 <= ly * ly && lx * lx + ly * ly
            < 0x1_0000_0000_0000_0000_0000_0000_0000 as int) by (nonlinear_arith)
            requires
                abs(lx as int) <= GEOM_LIMIT,
                abs(ly as int) <= GEOM_LIMIT,
                GEOM_LIMIT == 0x10_0000_0000_0000;
    }
    let len2: i128 = lx * lx + ly * ly + (SCALE2 as i128);
    let far: bool = {
        match (minimum_ratio_for_integration as i128).checked_mul(len2) {
            Some(t) => {
                proof {
                    assert(norm2 * (SCALE as int) < i128::MAX) by (nonlinear_arith)
                        requires
                            0 <= (norm2 as int) && (norm2 as int)
                                <= 0x100_0000_0000_0000_0000_0000_0000,
                            SCALE == 1_000_000;
                }
                norm2 * (SCALE as i128) > t
            },
            None => {
                proof {
                    assert(tg * (len2 as int) > i128::MAX || tg * (len2 as int) < i128::MIN ==> tg
                        * (len2 as int) > i128::MAX) by (nonlinear_arith)
                        requires
                            tg >= 0,
                            len2 as int >= 0;
                    assert(norm2 * (SCALE as int) < i128::MAX) by (nonlinear_arith)
                        requires
                            0 <= (norm2 as int) && (norm2 as int)
                                <= 0x100_0000_0000_0000_0000_0000_0000,
                            SCALE == 1_000_000;
                }
                false
            },
        }
    };
    proof {
        assert(far == far_enough(qxg, qyg, nv, tg));
    }
    let leaf: bool = rect.is_leaf();
    proof {
        lemma_kids_view_index(rect.children@);
        assert(leaf == (nv.kids.len() == 0));
    }
    if far || leaf {
        if rect.data.mass_center.x == mass_point.position.x && rect.data.mass_center.y
            == mass_point.position.y {
            (0, 0)
        } else {
            accel_between(mass_point, rect.data(), gravity_constant, gravity_cutoff)
        }
    } else {
        let ghost kids = nv.kids;
        let mut ax: i128 = 0;
        let mut ay: i128 = 0;
        let kcount: usize = rect.children.len();
        proof {
            assert(kids.subrange(0, 0) =~= Seq::<NodeModel>::empty());
            assert(kids == kids_view(rect.children@));
        }
        for i in 0..kcount
            invariant
                kcount == rect.children@.len(),
                nv == node_view(*rect),
                model_ok(nv),
                kids == nv.kids,
                kids.len() == kcount,
                kids_ok(kids),
                nv.mass == kids_mass_sum(kids),
                gravity_constant >= 0,
                minimum_ratio_for_integration >= 0,
                0 <= gravity_cutoff <= LIMIT,
                gravity_constant * nv.mass <= SCALE * (i64::MAX as int),
                abs(mass_point.position.x as int) <= LIMIT,
                abs(mass_point.position.y as int) <= LIMIT,
                qxg == mass_point.position.x as int,
                qyg == mass_point.position.y as int,
                gg == gravity_constant as int,
                tg == minimum_ratio_for_integration as int,
                cg == gravity_cutoff as int,
                ax as int == kids_accel_sum(qxg, qyg, kids.subrange(0, i as int), gg, tg, cg).0,
                ay as int == kids_accel_sum(qxg, qyg, kids.subrange(0, i as int), gg, tg, cg).1,
                abs(ax as int) <= gg * kids_mass_sum(kids.subrange(0, i as int)) * SCALE,
                abs(ay as int) <= gg * kids_mass_sum(kids.subrange(0, i as int)) * SCALE,
                0 <= kids_mass_sum(kids.subrange(0, i as int)) <= nv.mass,
        {
            proof {
                lemma_kids_view_index(rect.children@);
                assert(kids[i as int] == node_view(rect.children@[i as int]));
                lemma_kids_ok_index(kids, i as int);
                lemma_kid_mass_le(kids, i as int);
                lemma_gm_bounds(gg, kids[i as int].mass, nv.mass);
                assert(decreases_to!(*rect => rect.children@[i as int]));
            }
            let c = &rect.children[i];
            let sub = calculate_accel(
                mass_point,
                c,
                gravity_constant,
                gravity_cutoff,
                minimum_ratio_for_integration,
            );
            proof {
                lemma_gm_bounds(gg, kids_mass_sum(kids.subrange(0, i as int)), nv.mass);
                assert(kids.subrange(0, i + 1) =~= kids.subrange(0, i as int).push(kids[i as int]));
                lemma_kids_accel_push(qxg, qyg, kids.subrange(0, i as int), kids[i as int], gg, tg, cg);
                lemma_kids_sums_push(kids.subrange(0, i as int), kids[i as int]);
                lemma_kids_ok_prefix(kids, i + 1);
                lemma_kids_accel_bound(qxg, qyg, kids.subrange(0, i + 1), gg, tg, cg);
                lemma_kids_mass_prefix_le(kids, i + 1);
                lemma_gm_bounds(gg, kids_mass_sum(kids.subrange(0, i + 1)), nv.mass);
            }
            ax = ax + sub.0;
            ay = ay + sub.1;
        }
        proof {
            assert(kids.subrange(0, kcount as int) =~= kids);
        }
        (ax, ay)
    }
}

/// The snapshots of a sequence of moving mass points.
pub open spec fn statics_of(ms: Seq<MassPoint>) -> Seq<StaticMassPoint> {
    ms.map_values(|m: MassPoint| StaticMassPoint { mass: m.mass, position: m.position })
}

/// Build the quad-tree of all points once and evaluate the softened
/// gravitational acceleration of every point against it.  Each entry of
/// the result is the traversal's exact outcome, saturated into the
/// fixed-point working range.
pub fn calculate_accels(
    mass_points: &Vec<MassPoint>,
    gravity_constant: i64,
    minimum_ratio_for_integration: i64,
    gravity_cutoff: i64,
) -> (accels: Vec<Vec2>)
    requires
        bodies_ok(statics_of(mass_points@)),
        gravity_constant >= 0,
        minimum_ratio_for_integration >= 0,
        0 <= gravity_cutoff <= LIMIT,
        gravity_constant * mass_sum(statics_of(mass_points@)) <= SCALE * (i64::MAX as int),
    ensures
        accels@.len() == mass_points@.len(),
        forall|i: int|
            0 <= i < mass_points@.len() ==> (#[trigger] accels@[i]).x == clamp_lim(
                accel_model(
                    mass_points@[i].position.x as int,
                    mass_points@[i].position.y as int,
                    sim_tree(statics_of(mass_points@)),
                    gravity_constant as int,
                    minimum_ratio_for_integration as int,
                    gravity_cutoff as int,
                ).0,
                LIMIT as int,
            ) && accels@[i].y == clamp_lim(
                accel_model(
                    mass_points@[i].position.x as int,
                    mass_points@[i].position.y as int,
                    sim_tree(statics_of(mass_points@)),
                    gravity_constant as int,
                    minimum_ratio_for_integration as int,
                    gravity_cutoff as int,
                ).1,
                LIMIT as int,
            ),
{
    let ghost sts = statics_of(mass_points@);
    let n: usize = mass_points.len();
    let mut statics: Vec<StaticMassPoint> = Vec::new();
    for i in 0..n
        invariant
            n == mass_points@.len(),
            sts == statics_of(mass_points@),
            statics@.len() == i,
            forall|j: int| 0 <= j < i ==> statics@[j] == sts[j],
    {
        statics.push(StaticMassPoint::from_mass_point(mass_points[i]));
    }
    proof {
        assert(statics@ =~= sts);
    }
    let mut root = construct_root(&statics);
    let ghost gcx = root.data.geometric_center.x as int;
    let ghost gcy = root.data.geometric_center.y as int;
    let ghost lenx = root.data.length.x as int;
    let ghost leny = root.data.length.y as int;
    construct_tree(&mut root, statics, MAX_DEPTH);
    proof {
        assert(node_view(root) == sim_tree(sts));
        lemma_build_props(gcx, gcy, lenx, leny, sts, MAX_DEPTH as nat);
        assert(model_ok(node_view(root)));
        assert(node_view(root).mass == mass_sum(sts));
    }
    let mut accels: Vec<Vec2> = Vec::new();
    for i in 0..n
        invariant
            n == mass_points@.len(),
            sts == statics_of(mass_points@),
            bodies_ok(sts),
            node_view(root) == sim_tree(sts),
            model_ok(node_view(root)),
            node_view(root).mass == mass_sum(sts),
            gravity_constant >= 0,
            minimum_ratio_for_integration >= 0,
            0 <= gravity_cutoff <= LIMIT,
            gravity_constant * mass_sum(sts) <= SCALE * (i64::MAX as int),
            accels@.len() == i,
            forall|j: int|
                0 <= j < i ==> (#[trigger] accels@[j]).x == clamp_lim(
                    accel_model(
                        mass_points@[j].position.x as int,
                        mass_points@[j].position.y as int,
                        sim_tree(sts),
                        gravity_constant as int,
                        minimum_ratio_for_integration as int,
                        gravity_cutoff as int,
                    ).0,
                    LIMIT as int,
                ) && accels@[j].y == clamp_lim(
                    accel_model(
                        mass_points@[j].position.x as int,
                        mass_points@[j].position.y as int,
                        sim_tree(sts),
                        gravity_constant as int,
                        minimum_ratio_for_integration as int,
                        gravity_cutoff as int,
                    ).1,
                    LIMIT as int,
                ),
    {
        let sp = StaticMassPoint::from_mass_point(mass_points[i]);
        proof {
            assert(sp == sts[i as int]);
            assert(sts[i as int].mass > 0 && abs(sts[i as int].position.x as int) <= LIMIT && abs(
                sts[i as int].position.y as int,
            ) <= LIMIT);
        }
        let a = calculate_accel(
            sp,
            &root,
            gravity_constant,
            gravity_cutoff,
            minimum_ratio_for_integration,
        );
        accels.push(Vec2 { x: sat_limit(a.0), y: sat_limit(a.1) });
    }
    accels
}

/// The mass sum only reads the masses: sequences that agree on them
/// agree on the sum.
pub proof fn lemma_mass_sum_same_masses(a: Seq<StaticMassPoint>, b: Seq<StaticMassPoint>)
    requires
        a.len() == b.len(),
        forall|i: int| 0 <= i < a.len() ==> (#[trigger] a[i]).mass == b[i].mass,
    ensures
        mass_sum(a) == mass_sum(b),
    decreases a.len(),
{
    if a.len() > 0 {
        assert(a.drop_last().len() == b.drop_last().len());
        assert forall|i: int|
            0 <= i < a.drop_last().len() implies (#[trigger] a.drop_last()[i]).mass
            == b.drop_last()[i].mass by {
            assert(a.drop_last()[i] == a[i]);
            assert(b.drop_last()[i] == b[i]);
        }
        lemma_mass_sum_same_masses(a.drop_last(), b.drop_last());
        assert(a.last().mass == b.last().mass);
    }
}

/// The coordinate extremes of a bounded point set are bounded and
/// ordered.
proof fn lemma_minmax_bounds(bs: Seq<StaticMassPoint>)
    requires
        bs.len() > 0,
        forall|i: int|
            0 <= i < bs.len() ==> abs((#[trigger] bs[i]).position.x as int) <= LIMIT && abs(
                bs[i].position.y as int,
            ) <= LIMIT,
    ensures
        -LIMIT <= min_x(bs) <= max_x(bs) <= LIMIT,
        -LIMIT <= min_y(bs) <= max_y(bs) <= LIMIT,
    decreases bs.len(),
{
    if bs.len() == 1 {
        assert(abs(bs[0].position.x as int) <= LIMIT);
    } else {
        let p = bs.drop_last();
        assert forall|i: int|
            0 <= i < p.len() implies abs((#[trigger] p[i]).position.x as int) <= LIMIT && abs(
            p[i].position.y as int) <= LIMIT by {
            assert(p[i] == bs[i]);
        }
        lemma_minmax_bounds(p);
        assert(abs(bs[bs.len() - 1].position.x as int) <= LIMIT);
        assert(abs(bs[bs.len() - 1].position.y as int) <= LIMIT);
        assert(bs.last() == bs[bs.len() - 1]);
    }
}

/// The bounding-box root region of a well-formed point set satisfies
/// the geometry bounds tree construction needs.
pub proof fn lemma_root_geom(bs: Seq<StaticMassPoint>)
    requires
        bodies_ok(bs),
        bs.len() > 0,
    ensures
        geom_ok(root_gc_x(bs), root_gc_y(bs), root_len_x(bs), root_len_y(bs)),
{
    lemma_minmax_bounds(bs);
    lemma_tdiv_bound(min_x(bs) + max_x(bs), 2, LIMIT as int);
    lemma_tdiv_bound(min_y(bs) + max_y(bs), 2, LIMIT as int);
}

/// For any non-empty point set, the root's aggregated mass equals the
/// exact sum of the individual masses (and is strictly positive), and
/// the whole tree is well-formed.
pub proof fn lemma_root_mass_is_total(bs: Seq<StaticMassPoint>)
    requires
        bodies_ok(bs),
        bs.len() > 0,
    ensures
        sim_tree(bs).mass == mass_sum(bs),
        sim_tree(bs).mass > 0,
        model_ok(sim_tree(bs)),
{
    lemma_root_geom(bs);
    lemma_build_props(root_gc_x(bs), root_gc_y(bs), root_len_x(bs), root_len_y(bs), bs, MAX_DEPTH as nat);
    lemma_mass_sum_pos(bs);
}

/// With the accuracy threshold lowered to zero, every query is answered
/// at the root: the whole tree acts as one aggregate body.
pub proof fn lemma_zero_threshold_aggregates(qx: int, qy: int, n: NodeModel, g: int, cutoff: int)
    ensures
        accel_model(qx, qy, n, g, 0, cutoff) == (if n.com_x == qx && n.com_y == qy {
            (0int, 0int)
        } else {
            accel_term(qx, qy, n.com_x, n.com_y, n.mass, g, cutoff)
        }),
{
    let dx = n.com_x - qx;
    let dy = n.com_y - qy;
    let norm2 = dx * dx + dy * dy + SCALE2;
    let len2 = n.len_x * n.len_x + n.len_y * n.len_y + SCALE2;
    assert(norm2 * SCALE > 0 && 0 * len2 == 0) by (nonlinear_arith)
        requires
            norm2 == dx * dx + dy * dy + SCALE2,
            SCALE2 == 1_000_000_000_000,
            SCALE == 1_000_000;
    assert(far_enough(qx, qy, n, 0));
}

/// Multiplying a truncating quotient back leaves an error below the
/// divisor.
proof fn lemma_tdiv_mul_err(a: int, b: int)
    requires
        b > 0,
    ensures
        abs(b * tdiv(a, b) - a) < b,
{
    if a >= 0 {
        vstd::arithmetic::div_mod::lemma_fundamental_div_mod(a, b);
        assert(a == b * (a / b) + a % b);
    } else {
        vstd::arithmetic::div_mod::lemma_fundamental_div_mod(-a, b);
        assert(-a == b * ((-a) / b) + (-a) % b);
        assert(b * tdiv(a, b) - a == (-a) % b) by (nonlinear_arith)
            requires
                tdiv(a, b) == -((-a) / b),
                -a == b * ((-a) / b) + (-a) % b;
    }
}

/// The aggregated center of mass tracks the exact mass-weighted
/// centroid: after at most `depth` levels of subdivision the error in
/// `mass * center` is below `mass * (depth + 1)` fixed-point steps.
#[verifier::rlimit(100)]
pub proof fn lemma_com_tolerance(
    gcx: int,
    gcy: int,
    lenx: int,
    leny: int,
    bs: Seq<StaticMassPoint>,
    depth: nat,
)
    requires
        bodies_ok(bs),
        geom_ok(gcx, gcy, lenx, leny),
    ensures
        abs(
            build_node(gcx, gcy, lenx, leny, bs, depth).mass * build_node(
                gcx,
                gcy,
                lenx,
                leny,
                bs,
                depth,
            ).com_x - wsum_x(bs),
        ) <= build_node(gcx, gcy, lenx, leny, bs, depth).mass * (depth + 1),
        abs(
            build_node(gcx, gcy, lenx, leny, bs, depth).mass * build_node(
                gcx,
                gcy,
                lenx,
                leny,
                bs,
                depth,
            ).com_y - wsum_y(bs),
        ) <= build_node(gcx, gcy, lenx, leny, bs, depth).mass * (depth + 1),
    decreases depth,
{
    let n = build_node(gcx, gcy, lenx, leny, bs, depth);
    lemma_build_props(gcx, gcy, lenx, leny, bs, depth);
    if bs.len() == 0 {
        assert(n.mass * n.com_x == 0 && n.mass * (depth + 1) == 0) by (nonlinear_arith)
            requires
                n.mass == 0,
                n.com_x == 0;
        assert(n.mass * n.com_y == 0) by (nonlinear_arith)
            requires
                n.mass == 0,
                n.com_y == 0;
    } else if bs.len() == 1 {
        assert(bs.drop_last() =~= Seq::<StaticMassPoint>::empty());
        assert(bs.last() == bs[0]);
        assert(wsum_x(Seq::<StaticMassPoint>::empty()) == 0);
        assert(wsum_y(Seq::<StaticMassPoint>::empty()) == 0);
        assert(wsum_x(bs) == bs[0].mass * bs[0].position.x);
        assert(wsum_y(bs) == bs[0].mass * bs[0].position.y);
        assert(n.mass * n.com_x == wsum_x(bs) && n.mass * n.com_y == wsum_y(bs))
            by (nonlinear_arith)
            requires
                n.mass == bs[0].mass as int,
                n.com_x == bs[0].position.x as int,
                n.com_y == bs[0].position.y as int,
                wsum_x(bs) == bs[0].mass * bs[0].position.x,
                wsum_y(bs) == bs[0].mass * bs[0].position.y;
        assert(n.mass * (depth + 1) >= 0) by (nonlinear_arith)
            requires
                n.mass >= 0;
    } else if depth == 0 {
        lemma_mass_sum_pos(bs);
        lemma_tdiv_mul_err(wsum_x(bs), mass_sum(bs));
        lemma_tdiv_mul_err(wsum_y(bs), mass_sum(bs));
        assert(n.mass * (depth + 1) == n.mass) by (nonlinear_arith)
            requires
                depth == 0;
        assert(n.mass * n.com_x == mass_sum(bs) * tdiv(wsum_x(bs), mass_sum(bs)));
        assert(n.mass * n.com_y == mass_sum(bs) * tdiv(wsum_y(bs), mass_sum(bs)));
    } else {
        let q_lt = quadrant_of(bs, gcx, gcy, ChildRectLocation::LeftTop);
        let q_lb = quadrant_of(bs, gcx, gcy, ChildRectLocation::LeftBottom);
        let q_rt = quadrant_of(bs, gcx, gcy, ChildRectLocation::RightTop);
        let q_rb = quadrant_of(bs, gcx, gcy, ChildRectLocation::RightBottom);
        lemma_quadrants_ok(bs, gcx, gcy);
        lemma_child_geom(gcx, gcy, lenx, leny, -1, -1);
        lemma_child_geom(gcx, gcy, lenx, leny, -1, 1);
        lemma_child_geom(gcx, gcy, lenx, leny, 1, -1);
        lemma_child_geom(gcx, gcy, lenx, leny, 1, 1);
        let clx = tdiv(lenx, 2);
        let cly = tdiv(leny, 2);
        let d = (depth - 1) as nat;
        let b_lt = build_node(child_center(gcx, lenx, -1), child_center(gcy, leny, -1), clx, cly, q_lt, d);
        let b_lb = build_node(child_center(gcx, lenx, -1), child_center(gcy, leny, 1), clx, cly, q_lb, d);
        let b_rt = build_node(child_center(gcx, lenx, 1), child_center(gcy, leny, -1), clx, cly, q_rt, d);
        let b_rb = build_node(child_center(gcx, lenx, 1), child_center(gcy, leny, 1), clx, cly, q_rb, d);
        lemma_com_tolerance(child_center(gcx, lenx, -1), child_center(gcy, leny, -1), clx, cly, q_lt, d);
        lemma_com_tolerance(child_center(gcx, lenx, -1), child_center(gcy, leny, 1), clx, cly, q_lb, d);
        lemma_com_tolerance(child_center(gcx, lenx, 1), child_center(gcy, leny, -1), clx, cly, q_rt, d);
        lemma_com_tolerance(child_center(gcx, lenx, 1), child_center(gcy, leny, 1), clx, cly, q_rb, d);
        lemma_build_props(child_center(gcx, lenx, -1), child_center(gcy, leny, -1), clx, cly, q_lt, d);
        lemma_build_props(child_center(gcx, lenx, -1), child_center(gcy, leny, 1), clx, cly, q_lb, d);
        lemma_build_props(child_center(gcx, lenx, 1), child_center(gcy, leny, -1), clx, cly, q_rt, d);
        lemma_build_props(child_center(gcx, lenx, 1), child_center(gcy, leny, 1), clx, cly, q_rb, d);
        let k_lt: Seq<NodeModel> = if q_lt.len() > 0 {
            seq![b_lt]
        } else {
            Seq::empty()
        };
        let k_lb: Seq<NodeModel> = if q_lb.len() > 0 {
            seq![b_lb]
        } else {
            Seq::empty()
        };
        let k_rt: Seq<NodeModel> = if q_rt.len() > 0 {
            seq![b_rt]
        } else {
            Seq::empty()
        };
        let k_rb: Seq<NodeModel> = if q_rb.len() > 0 {
            seq![b_rb]
        } else {
            Seq::empty()
        };
        lemma_kids_single(k_lt);
        lemma_kids_single(k_lb);
        lemma_kids_single(k_rt);
        lemma_kids_single(k_rb);
        lemma_kids_concat(k_lt, k_lb);
        lemma_kids_concat(k_lt + k_lb, k_rt);
        lemma_kids_concat(k_lt + k_lb + k_rt, k_rb);
        let kids = k_lt + k_lb + k_rt + k_rb;
        lemma_quadrant_partition(bs, gcx, gcy);
        lemma_mass_sum_pos(bs);
        // wsum of an empty quadrant is zero, and a zero-mass quadrant is empty
        if q_lt.len() == 0 {
            assert(mass_sum(q_lt) == 0 && wsum_x(q_lt) == 0 && wsum_y(q_lt) == 0);
        }
        if q_lb.len() == 0 {
            assert(mass_sum(q_lb) == 0 && wsum_x(q_lb) == 0 && wsum_y(q_lb) == 0);
        }
        if q_rt.len() == 0 {
            assert(mass_sum(q_rt) == 0 && wsum_x(q_rt) == 0 && wsum_y(q_rt) == 0);
        }
        if q_rb.len() == 0 {
            assert(mass_sum(q_rb) == 0 && wsum_x(q_rb) == 0 && wsum_y(q_rb) == 0);
        }
        lemma_quad_err(mass_sum(q_lt), b_lt.com_x, wsum_x(q_lt), q_lt.len() > 0, depth as int);
        lemma_quad_err(mass_sum(q_lb), b_lb.com_x, wsum_x(q_lb), q_lb.len() > 0, depth as int);
        lemma_quad_err(mass_sum(q_rt), b_rt.com_x, wsum_x(q_rt), q_rt.len() > 0, depth as int);
        lemma_quad_err(mass_sum(q_rb), b_rb.com_x, wsum_x(q_rb), q_rb.len() > 0, depth as int);
        lemma_quad_err(mass_sum(q_lt), b_lt.com_y, wsum_y(q_lt), q_lt.len() > 0, depth as int);
        lemma_quad_err(mass_sum(q_lb), b_lb.com_y, wsum_y(q_lb), q_lb.len() > 0, depth as int);
        lemma_quad_err(mass_sum(q_rt), b_rt.com_y, wsum_y(q_rt), q_rt.len() > 0, depth as int);
        lemma_quad_err(mass_sum(q_rb), b_rb.com_y, wsum_y(q_rb), q_rb.len() > 0, depth as int);
        // the child weighted sums accumulate the quadrant weighted sums
        // within the children's own error budgets
        assert(kids_wsum_x(kids) == (if q_lt.len() > 0 { b_lt.mass * b_lt.com_x } else { 0 }) + (
        if q_lb.len() > 0 { b_lb.mass * b_lb.com_x } else { 0 }) + (if q_rt.len() > 0 { b_rt.mass
            * b_rt.com_x } else { 0 }) + (if q_rb.len() > 0 { b_rb.mass * b_rb.com_x } else { 0 }));
        assert(abs(kids_wsum_x(kids) - wsum_x(bs)) <= mass_sum(bs) * (depth as int)) by {
            lemma_err_sum4(
                mass_sum(q_lt), if q_lt.len() > 0 { b_lt.mass * b_lt.com_x } else { 0 }, wsum_x(q_lt),
                mass_sum(q_lb), if q_lb.len() > 0 { b_lb.mass * b_lb.com_x } else { 0 }, wsum_x(q_lb),
                mass_sum(q_rt), if q_rt.len() > 0 { b_rt.mass * b_rt.com_x } else { 0 }, wsum_x(q_rt),
                mass_sum(q_rb), if q_rb.len() > 0 { b_rb.mass * b_rb.com_x } else { 0 }, wsum_x(q_rb),
                depth as int,
            );
        }
        assert(abs(kids_wsum_y(kids) - wsum_y(bs)) <= mass_sum(bs) * (depth as int)) by {
            lemma_err_sum4(
                mass_sum(q_lt), if q_lt.len() > 0 { b_lt.mass * b_lt.com_y } else { 0 }, wsum_y(q_lt),
                mass_sum(q_lb), if q_lb.len() > 0 { b_lb.mass * b_lb.com_y } else { 0 }, wsum_y(q_lb),
                mass_sum(q_rt), if q_rt.len() > 0 { b_rt.mass * b_rt.com_y } else { 0 }, wsum_y(q_rt),
                mass_sum(q_rb), if q_rb.len() > 0 { b_rb.mass * b_rb.com_y } else { 0 }, wsum_y(q_rb),
                depth as int,
            );
        }
        lemma_tdiv_mul_err(kids_wsum_x(kids), kids_mass_sum(kids));
        lemma_tdiv_mul_err(kids_wsum_y(kids), kids_mass_sum(kids));
        assert(n.mass * n.com_x == kids_mass_sum(kids) * tdiv(kids_wsum_x(kids), kids_mass_sum(kids)));
        assert(n.mass * n.com_y == kids_mass_sum(kids) * tdiv(kids_wsum_y(kids), kids_mass_sum(kids)));
        assert(n.mass * ((depth as int) + 1) == n.mass * (depth as int) + n.mass)
            by (nonlinear_arith);
    }
}

/// One quadrant's contribution to the parent's weighted sum differs
/// from the quadrant's exact weighted sum by at most `mass * depth`.
proof fn lemma_quad_err(qmass: int, com: int, wsum: int, nonempty: bool, depth: int)
    requires
        depth >= 1,
        qmass >= 0,
        nonempty ==> abs(qmass * com - wsum) <= qmass * depth,
        !nonempty ==> qmass == 0 && wsum == 0,
    ensures
        abs((if nonempty {
            qmass * com
        } else {
            0
        }) - wsum) <= qmass * depth,
{
    if !nonempty {
        assert(qmass * depth >= 0) by (nonlinear_arith)
            requires
                qmass >= 0,
                depth >= 1;
    }
}

/// Four error bounds of the form `mass_i * depth` add up to
/// `total * depth`.
proof fn lemma_err_sum4(
    m1: int,
    c1: int,
    w1: int,
    m2: int,
    c2: int,
    w2: int,
    m3: int,
    c3: int,
    w3: int,
    m4: int,
    c4: int,
    w4: int,
    depth: int,
)
    requires
        depth >= 1,
        m1 >= 0,
        m2 >= 0,
        m3 >= 0,
        m4 >= 0,
        abs(c1 - w1) <= m1 * depth,
        abs(c2 - w2) <= m2 * depth,
        abs(c3 - w3) <= m3 * depth,
        abs(c4 - w4) <= m4 * depth,
    ensures
        abs((c1 + c2 + c3 + c4) - (w1 + w2 + w3 + w4)) <= (m1 + m2 + m3 + m4) * depth,
{
    assert((m1 + m2 + m3 + m4) * depth == m1 * depth + m2 * depth + m3 * depth + m4 * depth)
        by (nonlinear_arith);
}

/// For any non-empty point set, the root's aggregated center of mass
/// tracks the classical mass-weighted centroid of all points: the error
/// in `mass * center` is below `mass * (MAX_DEPTH + 1)` fixed-point
/// steps on each axis.
pub proof fn lemma_root_center_of_mass(bs: Seq<StaticMassPoint>)
    requires
        bodies_ok(bs),
        bs.len() > 0,
    ensures
        abs(sim_tree(bs).mass * sim_tree(bs).com_x - wsum_x(bs)) <= sim_tree(bs).mass * (
        MAX_DEPTH + 1),
        abs(sim_tree(bs).mass * sim_tree(bs).com_y - wsum_y(bs)) <= sim_tree(bs).mass * (
        MAX_DEPTH + 1),
{
    lemma_root_geom(bs);
    lemma_com_tolerance(
        root_gc_x(bs),
        root_gc_y(bs),
        root_len_x(bs),
        root_len_y(bs),
        bs,
        MAX_DEPTH as nat,
    );
}

/// The accuracy threshold is high enough that the traversal refines
/// every internal node it can reach: no node is aggregated by distance.
pub open spec fn always_refines(qx: int, qy: int, n: NodeModel, theta: int) -> bool
    decreases n,
{
    n.kids.len() == 0 || (!far_enough(qx, qy, n, theta) && kids_refine(qx, qy, n.kids, theta))
}

/// `always_refines` over a child list.
pub open spec fn kids_refine(qx: int, qy: int, kids: Seq<NodeModel>, theta: int) -> bool
    decreases kids,
{
    if kids.len() == 0 {
        true
    } else {
        kids_refine(qx, qy, kids.drop_last(), theta) && always_refines(qx, qy, kids.last(), theta)
    }
}

/// Direct summation over the tree's leaves: every leaf contributes its
/// softened term (zero for the leaf holding the query point itself).
pub open spec fn leaf_sum(qx: int, qy: int, n: NodeModel, g: int, cutoff: int) -> (int, int)
    decreases n,
{
    if n.kids.len() == 0 {
        if n.com_x == qx && n.com_y == qy {
            (0, 0)
        } else {
            accel_term(qx, qy, n.com_x, n.com_y, n.mass, g, cutoff)
        }
    } else {
        kids_leaf_sum(qx, qy, n.kids, g, cutoff)
    }
}

/// `leaf_sum` over a child list.
pub open spec fn kids_leaf_sum(
    qx: int,
    qy: int,
    kids: Seq<NodeModel>,
    g: int,
    cutoff: int,
) -> (int, int)
    decreases kids,
{
    if kids.len() == 0 {
        (0, 0)
    } else {
        let rest = kids_leaf_sum(qx, qy, kids.drop_last(), g, cutoff);
        let lastv = leaf_sum(qx, qy, kids.last(), g, cutoff);
        (rest.0 + lastv.0, rest.1 + lastv.1)
    }
}

/// Raising the accuracy threshold until every node refines makes the
/// Barnes-Hut traversal behave identically to direct summation over the
/// tree's leaves.
pub proof fn lemma_full_accuracy_is_direct_sum(
    qx: int,
    qy: int,
    n: NodeModel,
    g: int,
    theta: int,
    cutoff: int,
)
    requires
        always_refines(qx, qy, n, theta),
    ensures
        accel_model(qx, qy, n, g, theta, cutoff) == leaf_sum(qx, qy, n, g, cutoff),
    decreases n,
{
    if n.kids.len() == 0 {
    } else {
        lemma_kids_full_accuracy(qx, qy, n.kids, g, theta, cutoff);
    }
}

/// The child-list form of [`lemma_full_accuracy_is_direct_sum`].
proof fn lemma_kids_full_accuracy(
    qx: int,
    qy: int,
    kids: Seq<NodeModel>,
    g: int,
    theta: int,
    cutoff: int,
)
    requires
        kids_refine(qx, qy, kids, theta),
    ensures
        kids_accel_sum(qx, qy, kids, g, theta, cutoff) == kids_leaf_sum(qx, qy, kids, g, cutoff),
    decreases kids,
{
    if kids.len() > 0 {
        lemma_kids_full_accuracy(qx, qy, kids.drop_last(), g, theta, cutoff);
        lemma_full_accuracy_is_direct_sum(qx, qy, kids.last(), g, theta, cutoff);
    }
}

/// Direct all-pairs softened summation: every body contributes its
/// term toward the query point, and a body standing exactly at the
/// query point contributes nothing.
pub open spec fn direct_sum(
    qx: int,
    qy: int,
    bs: Seq<StaticMassPoint>,
    g: int,
    cutoff: int,
) -> (int, int)
    decreases bs.len(),
{
    if bs.len() == 0 {
        (0, 0)
    } else {
        let rest = direct_sum(qx, qy, bs.drop_last(), g, cutoff);
        let p = bs.last();
        let t = if p.position.x == qx && p.position.y == qy {
            (0int, 0int)
        } else {
            accel_term(qx, qy, p.position.x as int, p.position.y as int, p.mass as int, g, cutoff)
        };
        (rest.0 + t.0, rest.1 + t.1)
    }
}

/// The subdivision fully resolves the point set: recursive quadrant
/// splitting separates every body into its own leaf before the depth
/// budget runs out.  This excludes exactly the sets the depth cap must
/// aggregate (coincident bodies, or bodies so close that the budget is
/// exhausted first).
pub open spec fn all_separated(
    gcx: int,
    gcy: int,
    lenx: int,
    leny: int,
    bs: Seq<StaticMassPoint>,
    depth: nat,
) -> bool
    decreases depth,
{
    if bs.len() <= 1 {
        true
    } else if depth == 0 {
        false
    } else {
        let clx = tdiv(lenx, 2);
        let cly = tdiv(leny, 2);
        let d = (depth - 1) as nat;
        all_separated(
            child_center(gcx, lenx, -1),
            child_center(gcy, leny, -1),
            clx,
            cly,
            quadrant_of(bs, gcx, gcy, ChildRectLocation::LeftTop),
            d,
        ) && all_separated(
            child_center(gcx, lenx, -1),
            child_center(gcy, leny, 1),
            clx,
            cly,
            quadrant_of(bs, gcx, gcy, ChildRectLocation::LeftBottom),
            d,
        ) && all_separated(
            child_center(gcx, lenx, 1),
            child_center(gcy, leny, -1),
            clx,
            cly,
            quadrant_of(bs, gcx, gcy, ChildRectLocation::RightTop),
            d,
        ) && all_separated(
            child_center(gcx, lenx, 1),
            child_center(gcy, leny, 1),
            clx,
            cly,
            quadrant_of(bs, gcx, gcy, ChildRectLocation::RightBottom),
            d,
        )
    }
}

/// Appending one body extends the all-pairs sum by its contribution.
proof fn lemma_direct_sum_push(
    qx: int,
    qy: int,
    s: Seq<StaticMassPoint>,
    x: StaticMassPoint,
    g: int,
    cutoff: int,
)
    ensures
        direct_sum(qx, qy, s.push(x), g, cutoff).0 == direct_sum(qx, qy, s, g, cutoff).0 + (
        if x.position.x == qx && x.position.y == qy {
            (0int, 0int)
        } else {
            accel_term(qx, qy, x.position.x as int, x.position.y as int, x.mass as int, g, cutoff)
        }).0,
        direct_sum(qx, qy, s.push(x), g, cutoff).1 == direct_sum(qx, qy, s, g, cutoff).1 + (
        if x.position.x == qx && x.position.y == qy {
            (0int, 0int)
        } else {
            accel_term(qx, qy, x.position.x as int, x.position.y as int, x.mass as int, g, cutoff)
        }).1,
{
    assert(s.push(x).drop_last() =~= s);
    assert(s.push(x).last() == x);
}

/// The all-pairs sum splits exactly into the four quadrants' sums.
proof fn lemma_direct_sum_partition(
    qx: int,
    qy: int,
    bs: Seq<StaticMassPoint>,
    cx: int,
    cy: int,
    g: int,
    cutoff: int,
)
    ensures
        direct_sum(qx, qy, bs, g, cutoff).0 == direct_sum(
            qx,
            qy,
            quadrant_of(bs, cx, cy, ChildRectLocation::LeftTop),
            g,
            cutoff,
        ).0 + direct_sum(qx, qy, quadrant_of(bs, cx, cy, ChildRectLocation::LeftBottom), g, cutoff).0
            + direct_sum(qx, qy, quadrant_of(bs, cx, cy, ChildRectLocation::RightTop), g, cutoff).0
            + direct_sum(qx, qy, quadrant_of(bs, cx, cy, ChildRectLocation::RightBottom), g, cutoff).0,
        direct_sum(qx, qy, bs, g, cutoff).1 == direct_sum(
            qx,
            qy,
            quadrant_of(bs, cx, cy, ChildRectLocation::LeftTop),
            g,
            cutoff,
        ).1 + direct_sum(qx, qy, quadrant_of(bs, cx, cy, ChildRectLocation::LeftBottom), g, cutoff).1
            + direct_sum(qx, qy, quadrant_of(bs, cx, cy, ChildRectLocation::RightTop), g, cutoff).1
            + direct_sum(qx, qy, quadrant_of(bs, cx, cy, ChildRectLocation::RightBottom), g, cutoff).1,
    decreases bs.len(),
{
    reveal(Seq::filter);
    if bs.len() > 0 {
        let p = bs.drop_last();
        let x = bs.last();
        lemma_direct_sum_partition(qx, qy, p, cx, cy, g, cutoff);
        assert(bs =~= p.push(x));
        lemma_filter_push(p, quad_pred(cx, cy, ChildRectLocation::LeftTop), x);
        lemma_filter_push(p, quad_pred(cx, cy, ChildRectLocation::LeftBottom), x);
        lemma_filter_push(p, quad_pred(cx, cy, ChildRectLocation::RightTop), x);
        lemma_filter_push(p, quad_pred(cx, cy, ChildRectLocation::RightBottom), x);
        lemma_direct_sum_push(qx, qy, p.filter(quad_pred(cx, cy, ChildRectLocation::LeftTop)), x, g, cutoff);
        lemma_direct_sum_push(qx, qy, p.filter(quad_pred(cx, cy, ChildRectLocation::LeftBottom)), x, g, cutoff);
        lemma_direct_sum_push(qx, qy, p.filter(quad_pred(cx, cy, ChildRectLocation::RightTop)), x, g, cutoff);
        lemma_direct_sum_push(qx, qy, p.filter(quad_pred(cx, cy, ChildRectLocation::RightBottom)), x, g, cutoff);
        lemma_direct_sum_push(qx, qy, p, x, g, cutoff);
    }
}

/// A term with zero mass contributes nothing.
proof fn lemma_zero_mass_term(qx: int, qy: int, comx: int, comy: int, g: int, cutoff: int)
    requires
        comx != qx || comy != qy,
    ensures
        accel_term(qx, qy, comx, comy, 0, g, cutoff) == (0int, 0int),
{
    let dx = comx - qx;
    let dy = comy - qy;
    let d2 = dx * dx + dy * dy;
    assert(d2 >= 1) by (nonlinear_arith)
        requires
            d2 == dx * dx + dy * dy,
            dx != 0 || dy != 0;
    let c2 = cutoff * cutoff;
    assert(c2 >= 0) by (nonlinear_arith)
        requires
            c2 == cutoff * cutoff;
    let den = d2 + c2;
    assert(den >= 1);
    assert(g * 0 * SCALE == 0) by (nonlinear_arith);
    vstd::arithmetic::div_mod::lemma_div_basics(den);
    assert(tdiv(0, den) == 0);
    let nx = tdiv(dx * SCALE, sqrt_floor(d2));
    let ny = tdiv(dy * SCALE, sqrt_floor(d2));
    assert(nx * 0 == 0) by (nonlinear_arith);
    assert(ny * 0 == 0) by (nonlinear_arith);
    vstd::arithmetic::div_mod::lemma_div_basics(SCALE as int);
    assert(tdiv(0, SCALE as int) == 0);
}

/// The sum over at most one child's leaves, unfolded.
proof fn lemma_kids_leaf_sum_single(qx: int, qy: int, k: Seq<NodeModel>, g: int, cutoff: int)
    requires
        k.len() <= 1,
    ensures
        k.len() == 0 ==> kids_leaf_sum(qx, qy, k, g, cutoff) == (0int, 0int),
        k.len() == 1 ==> kids_leaf_sum(qx, qy, k, g, cutoff) == leaf_sum(qx, qy, k[0], g, cutoff),
{
    if k.len() == 1 {
        assert(k.drop_last() =~= Seq::<NodeModel>::empty());
        assert(k.last() == k[0]);
        let z = kids_leaf_sum(qx, qy, Seq::<NodeModel>::empty(), g, cutoff);
        assert(z == (0int, 0int));
    }
}

/// The sum over leaves splits over a concatenation of child lists.
proof fn lemma_kids_leaf_sum_concat(
    qx: int,
    qy: int,
    a: Seq<NodeModel>,
    b: Seq<NodeModel>,
    g: int,
    cutoff: int,
)
    ensures
        kids_leaf_sum(qx, qy, a + b, g, cutoff).0 == kids_leaf_sum(qx, qy, a, g, cutoff).0
            + kids_leaf_sum(qx, qy, b, g, cutoff).0,
        kids_leaf_sum(qx, qy, a + b, g, cutoff).1 == kids_leaf_sum(qx, qy, a, g, cutoff).1
            + kids_leaf_sum(qx, qy, b, g, cutoff).1,
    decreases b.len(),
{
    if b.len() == 0 {
        assert(a + b =~= a);
    } else {
        lemma_kids_leaf_sum_concat(qx, qy, a, b.drop_last(), g, cutoff);
        assert((a + b).drop_last() =~= a + b.drop_last());
        assert((a + b).last() == b.last());
    }
}

/// When the subdivision fully resolves the point set, the tree's
/// leaf-level sum is exactly the direct all-pairs summation.
#[verifier::rlimit(100)]
proof fn lemma_resolved_leaf_sum(
    qx: int,
    qy: int,
    gcx: int,
    gcy: int,
    lenx: int,
    leny: int,
    bs: Seq<StaticMassPoint>,
    depth: nat,
    g: int,
    cutoff: int,
)
    requires
        bodies_ok(bs),
        all_separated(gcx, gcy, lenx, leny, bs, depth),
    ensures
        leaf_sum(qx, qy, build_node(gcx, gcy, lenx, leny, bs, depth), g, cutoff) == direct_sum(
            qx,
            qy,
            bs,
            g,
            cutoff,
        ),
    decreases depth,
{
    let n = build_node(gcx, gcy, lenx, leny, bs, depth);
    if bs.len() == 0 {
        if !(n.com_x == qx && n.com_y == qy) {
            lemma_zero_mass_term(qx, qy, n.com_x, n.com_y, g, cutoff);
        }
    } else if bs.len() == 1 {
        assert(bs.drop_last() =~= Seq::<StaticMassPoint>::empty());
        assert(bs.last() == bs[0]);
        assert(direct_sum(qx, qy, Seq::<StaticMassPoint>::empty(), g, cutoff) == (0int, 0int));
    } else {
        let q_lt = quadrant_of(bs, gcx, gcy, ChildRectLocation::LeftTop);
        let q_lb = quadrant_of(bs, gcx, gcy, ChildRectLocation::LeftBottom);
        let q_rt = quadrant_of(bs, gcx, gcy, ChildRectLocation::RightTop);
        let q_rb = quadrant_of(bs, gcx, gcy, ChildRectLocation::RightBottom);
        lemma_quadrants_ok(bs, gcx, gcy);
        let clx = tdiv(lenx, 2);
        let cly = tdiv(leny, 2);
        let d = (depth - 1) as nat;
        let b_lt = build_node(child_center(gcx, lenx, -1), child_center(gcy, leny, -1), clx, cly, q_lt, d);
        let b_lb = build_node(child_center(gcx, lenx, -1), child_center(gcy, leny, 1), clx, cly, q_lb, d);
        let b_rt = build_node(child_center(gcx, lenx, 1), child_center(gcy, leny, -1), clx, cly, q_rt, d);
        let b_rb = build_node(child_center(gcx, lenx, 1), child_center(gcy, leny, 1), clx, cly, q_rb, d);
        lemma_resolved_leaf_sum(qx, qy, child_center(gcx, lenx, -1), child_center(gcy, leny, -1), clx, cly, q_lt, d, g, cutoff);
        lemma_resolved_leaf_sum(qx, qy, child_center(gcx, lenx, -1), child_center(gcy, leny, 1), clx, cly, q_lb, d, g, cutoff);
        lemma_resolved_leaf_sum(qx, qy, child_center(gcx, lenx, 1), child_center(gcy, leny, -1), clx, cly, q_rt, d, g, cutoff);
        lemma_resolved_leaf_sum(qx, qy, child_center(gcx, lenx, 1), child_center(gcy, leny, 1), clx, cly, q_rb, d, g, cutoff);
        let k_lt: Seq<NodeModel> = if q_lt.len() > 0 {
            seq![b_lt]
        } else {
            Seq::empty()
        };
        let k_lb: Seq<NodeModel> = if q_lb.len() > 0 {
            seq![b_lb]
        } else {
            Seq::empty()
        };
        let k_rt: Seq<NodeModel> = if q_rt.len() > 0 {
            seq![b_rt]
        } else {
            Seq::empty()
        };
        let k_rb: Seq<NodeModel> = if q_rb.len() > 0 {
            seq![b_rb]
        } else {
            Seq::empty()
        };
        let kids = k_lt + k_lb + k_rt + k_rb;
        assert(n.kids == kids);
        // at least one quadrant is inhabited, so the node is internal
        lemma_quadrant_partition(bs, gcx, gcy);
        lemma_mass_sum_pos(bs);
        if q_lt.len() == 0 {
            assert(mass_sum(q_lt) == 0);
        }
        if q_lb.len() == 0 {
            assert(mass_sum(q_lb) == 0);
        }
        if q_rt.len() == 0 {
            assert(mass_sum(q_rt) == 0);
        }
        if q_rb.len() == 0 {
            assert(mass_sum(q_rb) == 0);
        }
        assert(kids.len() > 0);
        lemma_kids_leaf_sum_single(qx, qy, k_lt, g, cutoff);
        lemma_kids_leaf_sum_single(qx, qy, k_lb, g, cutoff);
        lemma_kids_leaf_sum_single(qx, qy, k_rt, g, cutoff);
        lemma_kids_leaf_sum_single(qx, qy, k_rb, g, cutoff);
        lemma_kids_leaf_sum_concat(qx, qy, k_lt, k_lb, g, cutoff);
        lemma_kids_leaf_sum_concat(qx, qy, k_lt + k_lb, k_rt, g, cutoff);
        lemma_kids_leaf_sum_concat(qx, qy, k_lt + k_lb + k_rt, k_rb, g, cutoff);
        // an empty quadrant contributes an empty sum
        if q_lt.len() == 0 {
            assert(direct_sum(qx, qy, q_lt, g, cutoff) == (0int, 0int));
        }
        if q_lb.len() == 0 {
            assert(direct_sum(qx, qy, q_lb, g, cutoff) == (0int, 0int));
        }
        if q_rt.len() == 0 {
            assert(direct_sum(qx, qy, q_rt, g, cutoff) == (0int, 0int));
        }
        if q_rb.len() == 0 {
            assert(direct_sum(qx, qy, q_rb, g, cutoff) == (0int, 0int));
        }
        lemma_direct_sum_partition(qx, qy, bs, gcx, gcy, g, cutoff);
    }
}

/// Raising the accuracy threshold until every reachable node refines,
/// on a point set the subdivision fully resolves, makes the Barnes-Hut
/// traversal identical to direct all-pairs softened summation.
pub proof fn lemma_full_accuracy_is_all_pairs(
    qx: int,
    qy: int,
    bs: Seq<StaticMassPoint>,
    g: int,
    theta: int,
    cutoff: int,
)
    requires
        bodies_ok(bs),
        bs.len() > 0,
        always_refines(qx, qy, sim_tree(bs), theta),
        all_separated(root_gc_x(bs), root_gc_y(bs), root_len_x(bs), root_len_y(bs), bs, MAX_DEPTH as nat),
    ensures
        accel_model(qx, qy, sim_tree(bs), g, theta, cutoff) == direct_sum(qx, qy, bs, g, cutoff),
{
    lemma_full_accuracy_is_direct_sum(qx, qy, sim_tree(bs), g, theta, cutoff);
    lemma_resolved_leaf_sum(
        qx,
        qy,
        root_gc_x(bs),
        root_gc_y(bs),
        root_len_x(bs),
        root_len_y(bs),
        bs,
        MAX_DEPTH as nat,
        g,
        cutoff,
    );
}

/// For two point masses with no other bodies present, a threshold that
/// refines every reachable node makes the Force Approximator's output
/// for the first body equal direct two-body softened Newtonian gravity
/// toward the second.
///
/// The subdivision must separate the two bodies before the depth
/// budget runs out; coincident bodies, which never separate, are
/// aggregated by the depth cap instead and are not covered.
pub proof fn lemma_two_body_force(
    p1: StaticMassPoint,
    p2: StaticMassPoint,
    g: int,
    theta: int,
    cutoff: int,
)
    requires
        bodies_ok(seq![p1, p2]),
        p1.position != p2.position,
        always_refines(
            p1.position.x as int,
            p1.position.y as int,
            sim_tree(seq![p1, p2]),
            theta,
        ),
        all_separated(
            root_gc_x(seq![p1, p2]),
            root_gc_y(seq![p1, p2]),
            root_len_x(seq![p1, p2]),
            root_len_y(seq![p1, p2]),
            seq![p1, p2],
            MAX_DEPTH as nat,
        ),
    ensures
        accel_model(
            p1.position.x as int,
            p1.position.y as int,
            sim_tree(seq![p1, p2]),
            g,
            theta,
            cutoff,
        ) == accel_term(
            p1.position.x as int,
            p1.position.y as int,
            p2.position.x as int,
            p2.position.y as int,
            p2.mass as int,
            g,
            cutoff,
        ),
{
    let bs = seq![p1, p2];
    let qx = p1.position.x as int;
    let qy = p1.position.y as int;
    lemma_full_accuracy_is_all_pairs(qx, qy, bs, g, theta, cutoff);
    assert(bs.drop_last() =~= seq![p1]);
    assert(bs.last() == p2);
    assert(seq![p1].drop_last() =~= Seq::<StaticMassPoint>::empty());
    assert(seq![p1].last() == p1);
    assert(direct_sum(qx, qy, Seq::<StaticMassPoint>::empty(), g, cutoff) == (0int, 0int));
    assert(direct_sum(qx, qy, seq![p1], g, cutoff) == (0int, 0int));
    assert(p2.position.x != qx || p2.position.y != qy);
    assert(direct_sum(qx, qy, bs, g, cutoff).0 == accel_term(
        qx,
        qy,
        p2.position.x as int,
        p2.position.y as int,
        p2.mass as int,
        g,
        cutoff,
    ).0);
    assert(direct_sum(qx, qy, bs, g, cutoff).1 == accel_term(
        qx,
        qy,
        p2.position.x as int,
        p2.position.y as int,
        p2.mass as int,
        g,
        cutoff,
    ).1);
}

} // verus!
