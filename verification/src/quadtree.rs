//! A region quadtree over particle positions, rebuilt from a snapshot of the
//! particle store whenever it is needed, and queried as a broad-phase
//! collision filter.
//!
//! A node is either a leaf holding an ordered collection of particles or a
//! branch with four children covering the four quadrants of the node's
//! rectangle. The tie-break rule is fixed and applied uniformly when a leaf
//! is split and when an insert descends: a coordinate at or above the
//! midpoint goes to the quadrant on the higher side. Because rectangle sides
//! are integers, a branch splits its width into `w / 2` (west) and
//! `w - w / 2` (east), and its height likewise, so the four child rectangles
//! cover the parent exactly.

use vstd::prelude::*;
use crate::particle::{Point, Vec2};
use crate::nums::{bound_ok, coord_ok, half_trunc, COORD_LIMIT};

verus! {

/// The mathematical value of a node rectangle: `[x, x + w] x [y, y + h]`.
pub struct SpecRect {
    pub x: int,
    pub y: int,
    pub w: int,
    pub h: int,
}

impl SpecRect {
    /// Sides are non-negative and all four corners lie in the bounds range.
    pub open spec fn valid(self) -> bool {
        &&& bound_ok(self.x)
        &&& bound_ok(self.y)
        &&& 0 <= self.w
        &&& 0 <= self.h
        &&& bound_ok(self.x + self.w)
        &&& bound_ok(self.y + self.h)
    }

    /// Inclusive containment of a position.
    pub open spec fn contains(self, p: Vec2) -> bool {
        &&& self.x <= p.x as int <= self.x + self.w
        &&& self.y <= p.y as int <= self.y + self.h
    }

    pub open spec fn x_mid(self) -> int {
        self.x + self.w / 2
    }

    pub open spec fn y_mid(self) -> int {
        self.y + self.h / 2
    }

    pub open spec fn quadrant(self, east: bool, north: bool) -> SpecRect {
        SpecRect {
            x: if east { self.x_mid() } else { self.x },
            y: if north { self.y_mid() } else { self.y },
            w: if east { self.w - self.w / 2 } else { self.w / 2 },
            h: if north { self.h - self.h / 2 } else { self.h / 2 },
        }
    }

    /// Whether this rectangle meets the axis-aligned square
    /// `[cx - r, cx + r] x [cy - r, cy + r]`.
    pub open spec fn meets_square(self, cx: int, cy: int, r: int) -> bool {
        !(cx + r < self.x || cx - r > self.x + self.w || cy + r < self.y || cy - r > self.y + self.h)
    }
}

/// The routing rule on the x axis: at or above the midpoint goes east.
pub open spec fn goes_east(p: Vec2, rect: SpecRect) -> bool {
    p.x as int >= rect.x_mid()
}

/// The routing rule on the y axis: at or above the midpoint goes north.
pub open spec fn goes_north(p: Vec2, rect: SpecRect) -> bool {
    p.y as int >= rect.y_mid()
}

/// The particles of `value` that the fixed rule sends to the given quadrant,
/// in their input order.
pub open spec fn split_child(value: Seq<Point>, rect: SpecRect, east: bool, north: bool) -> Seq<
    Point,
> {
    value.filter(
        |q: Point| goes_east(q.position, rect) == east && goes_north(q.position, rect) == north,
    )
}

/// The mathematical value of a tree node.
pub enum SpecNode {
    Leaf { value: Seq<Point> },
    Branch { nw: Box<SpecNode>, ne: Box<SpecNode>, sw: Box<SpecNode>, se: Box<SpecNode> },
}

impl SpecNode {
    /// All particles held below this node, in traversal order.
    pub open spec fn points(self) -> Seq<Point>
        decreases self,
    {
        match self {
            SpecNode::Leaf { value } => value,
            SpecNode::Branch { nw, ne, sw, se } => (*nw).points() + (*ne).points() + (*sw).points()
                + (*se).points(),
        }
    }

    /// Every particle below a node lies in that node's rectangle.
    pub open spec fn wf(self, rect: SpecRect) -> bool
        decreases self,
    {
        match self {
            SpecNode::Leaf { value } => forall|i: int|
                0 <= i < value.len() ==> rect.contains(#[trigger] value[i].position),
            SpecNode::Branch { nw, ne, sw, se } => {
                &&& (*nw).wf(rect.quadrant(false, true))
                &&& (*ne).wf(rect.quadrant(true, true))
                &&& (*sw).wf(rect.quadrant(false, false))
                &&& (*se).wf(rect.quadrant(true, false))
            },
        }
    }

    /// Every leaf below this node holds at most `cap` particles.
    pub open spec fn capped(self, cap: int) -> bool
        decreases self,
    {
        match self {
            SpecNode::Leaf { value } => value.len() <= cap,
            SpecNode::Branch { nw, ne, sw, se } => {
                &&& (*nw).capped(cap)
                &&& (*ne).capped(cap)
                &&& (*sw).capped(cap)
                &&& (*se).capped(cap)
            },
        }
    }

    /// Insertion: descend by the fixed rule to a leaf and append; if the leaf
    /// then exceeds `cap`, split it once into four quadrant leaves.
    pub open spec fn insert(self, p: Point, rect: SpecRect, cap: int) -> SpecNode
        decreases self,
    {
        match self {
            SpecNode::Leaf { value } => {
                let v2 = value.push(p);
                if v2.len() > cap {
                    SpecNode::Branch {
                        nw: Box::new(SpecNode::Leaf { value: split_child(v2, rect, false, true) }),
                        ne: Box::new(SpecNode::Leaf { value: split_child(v2, rect, true, true) }),
                        sw: Box::new(SpecNode::Leaf { value: split_child(v2, rect, false, false) }),
                        se: Box::new(SpecNode::Leaf { value: split_child(v2, rect, true, false) }),
                    }
                } else {
                    SpecNode::Leaf { value: v2 }
                }
            },
            SpecNode::Branch { nw, ne, sw, se } => {
                let east = goes_east(p.position, rect);
                let north = goes_north(p.position, rect);
                if east {
                    if north {
                        SpecNode::Branch {
                            nw,
                            ne: Box::new((*ne).insert(p, rect.quadrant(true, true), cap)),
                            sw,
                            se,
                        }
                    } else {
                        SpecNode::Branch {
                            nw,
                            ne,
                            sw,
                            se: Box::new((*se).insert(p, rect.quadrant(true, false), cap)),
                        }
                    }
                } else {
                    if north {
                        SpecNode::Branch {
                            nw: Box::new((*nw).insert(p, rect.quadrant(false, true), cap)),
                            ne,
                            sw,
                            se,
                        }
                    } else {
                        SpecNode::Branch {
                            nw,
                            ne,
                            sw: Box::new((*sw).insert(p, rect.quadrant(false, false), cap)),
                            se,
                        }
                    }
                }
            },
        }
    }

    /// The broad-phase query: prune a subtree whose rectangle misses the
    /// query square, return every particle of a leaf that is not pruned.
    pub open spec fn query(self, cx: int, cy: int, r: int, rect: SpecRect) -> Seq<Point>
        decreases self,
    {
        if !rect.meets_square(cx, cy, r) {
            Seq::empty()
        } else {
            match self {
                SpecNode::Leaf { value } => value,
                SpecNode::Branch { nw, ne, sw, se } => (*nw).query(
                    cx,
                    cy,
                    r,
                    rect.quadrant(false, true),
                ) + (*ne).query(cx, cy, r, rect.quadrant(true, true)) + (*sw).query(
                    cx,
                    cy,
                    r,
                    rect.quadrant(false, false),
                ) + (*se).query(cx, cy, r, rect.quadrant(true, false)),
            }
        }
    }
}

/// Building a tree from a snapshot: drop the particles outside the bounds,
/// insert the survivors one at a time in input order.
pub open spec fn spec_build_root(points: Seq<Point>, rect: SpecRect, cap: int) -> SpecNode
    decreases points.len(),
{
    if points.len() == 0 {
        SpecNode::Leaf { value: Seq::empty() }
    } else {
        let prev = spec_build_root(points.drop_last(), rect, cap);
        let p = points.last();
        if rect.contains(p.position) {
            prev.insert(p, rect, cap)
        } else {
            prev
        }
    }
}

/// The mathematical value of a whole tree.
pub struct SpecTree {
    pub rect: SpecRect,
    pub root: SpecNode,
}

impl SpecTree {
    pub open spec fn wf(self) -> bool {
        self.rect.valid() && self.root.wf(self.rect)
    }

    pub open spec fn points(self) -> Seq<Point> {
        self.root.points()
    }

    pub open spec fn query(self, cx: int, cy: int, r: int) -> Seq<Point> {
        self.root.query(cx, cy, r, self.rect)
    }

    pub open spec fn capped(self, cap: int) -> bool {
        self.root.capped(cap)
    }
}

/// The tree `from_points` returns for a given snapshot, bounds and capacity.
pub open spec fn spec_from_points(points: Seq<Point>, rect: SpecRect, cap: int) -> SpecTree {
    SpecTree { rect, root: spec_build_root(points, rect, cap) }
}

/// The rectangle value of four fixed-point sides.
pub open spec fn rect_of(x: i64, y: i64, w: i64, h: i64) -> SpecRect {
    SpecRect { x: x as int, y: y as int, w: w as int, h: h as int }
}

enum Node {
    Leaf { value: Vec<Point> },
    Branch { nw: Box<Node>, ne: Box<Node>, sw: Box<Node>, se: Box<Node> },
}

impl Node {
    spec fn view(self) -> SpecNode
        decreases self,
    {
        match self {
            Node::Leaf { value } => SpecNode::Leaf { value: value@ },
            Node::Branch { nw, ne, sw, se } => SpecNode::Branch {
                nw: Box::new((*nw).view()),
                ne: Box::new((*ne).view()),
                sw: Box::new((*sw).view()),
                se: Box::new((*se).view()),
            },
        }
    }
}

/// The spatial index: a bounding rectangle and the root node.
pub struct QuadTree {
    left_x: i64,
    bottom_y: i64,
    width: i64,
    height: i64,
    root: Node,
}

impl View for QuadTree {
    type V = SpecTree;

    closed spec fn view(&self) -> SpecTree {
        SpecTree {
            rect: rect_of(self.left_x, self.bottom_y, self.width, self.height),
            root: self.root.view(),
        }
    }
}

impl QuadTree {
    /// An empty index over the given bounds.
    pub fn new(left_x: i64, bottom_y: i64, width: i64, height: i64) -> (t: QuadTree)
        requires
            rect_of(left_x, bottom_y, width, height).valid(),
        ensures
            t@.rect == rect_of(left_x, bottom_y, width, height),
            t@.root == (SpecNode::Leaf { value: Seq::<Point>::empty() }),
            t@.wf(),
    {
        QuadTree { left_x, bottom_y, width, height, root: Node::Leaf { value: Vec::new() } }
    }

    /// Rebuild: filter the snapshot to the particles inside the bounds
    /// (inclusive), then insert the survivors one at a time in input order.
    /// The result is a function of the snapshot, bounds and capacity alone.
    pub fn from_points(
        points: Vec<Point>,
        left_x: i64,
        bottom_y: i64,
        width: i64,
        height: i64,
        points_per_quad: usize,
    ) -> (t: QuadTree)
        requires
            rect_of(left_x, bottom_y, width, height).valid(),
            points_per_quad >= 1,
        ensures
            t@ == spec_from_points(
                points@,
                rect_of(left_x, bottom_y, width, height),
                points_per_quad as int,
            ),
            t@.wf(),
    {
        let ghost rect = rect_of(left_x, bottom_y, width, height);
        let mut root = Node::Leaf { value: Vec::new() };
        let mut i: usize = 0;
        while i < points.len()
            invariant
                0 <= i <= points@.len(),
                rect == rect_of(left_x, bottom_y, width, height),
                rect.valid(),
                points_per_quad >= 1,
                root.view() == spec_build_root(points@.take(i as int), rect, points_per_quad as int),
                root.view().wf(rect),
            decreases points@.len() - i,
        {
            let p = points[i];
            let inside = p.position.x >= left_x && p.position.x <= left_x + width
                && p.position.y >= bottom_y && p.position.y <= bottom_y + height;
            proof {
                assert(inside == rect.contains(p.position));
            }
            if inside {
                let ghost prev = root.view();
                root = insert_node(root, p, left_x, bottom_y, width, height, points_per_quad);
                proof {
                    lemma_insert_wf(prev, p, rect, points_per_quad as int);
                }
            }
            proof {
                assert(points@.take(i + 1).drop_last() =~= points@.take(i as int));
                assert(points@.take(i + 1).last() == points@[i as int]);
            }
            i += 1;
        }
        proof {
            assert(points@.take(points@.len() as int) =~= points@);
        }
        QuadTree { left_x, bottom_y, width, height, root }
    }
}

/// Insertion into one node, by value; the result is exactly `SpecNode::insert`
/// of the input.
fn insert_node(n: Node, p: Point, x: i64, y: i64, w: i64, h: i64, cap: usize) -> (r: Node)
    requires
        rect_of(x, y, w, h).valid(),
        cap >= 1,
    ensures
        r.view() == n.view().insert(p, rect_of(x, y, w, h), cap as int),
    decreases n,
{
    let ghost rect = rect_of(x, y, w, h);
    let w2 = half_trunc(w);
    let h2 = half_trunc(h);
    let xm = x + w2;
    let ym = y + h2;
    proof {
        assert(0 <= w as int / 2 <= w as int) by (nonlinear_arith)
            requires
                w as int >= 0,
        ;
        assert(0 <= h as int / 2 <= h as int) by (nonlinear_arith)
            requires
                h as int >= 0,
        ;
        assert(xm as int == rect.x_mid());
        assert(ym as int == rect.y_mid());
        assert(rect.quadrant(true, true).valid());
        assert(rect.quadrant(true, false).valid());
        assert(rect.quadrant(false, true).valid());
        assert(rect.quadrant(false, false).valid());
    }
    match n {
        Node::Leaf { mut value } => {
            value.push(p);
            if value.len() > cap {
                let mut nw_v: Vec<Point> = Vec::new();
                let mut ne_v: Vec<Point> = Vec::new();
                let mut sw_v: Vec<Point> = Vec::new();
                let mut se_v: Vec<Point> = Vec::new();
                let mut i: usize = 0;
                while i < value.len()
                    invariant
                        0 <= i <= value@.len(),
                        xm as int == rect.x_mid(),
                        ym as int == rect.y_mid(),
                        nw_v@ == split_child(value@.take(i as int), rect, false, true),
                        ne_v@ == split_child(value@.take(i as int), rect, true, true),
                        sw_v@ == split_child(value@.take(i as int), rect, false, false),
                        se_v@ == split_child(value@.take(i as int), rect, true, false),
                    decreases value@.len() - i,
                {
                    let q = value[i];
                    proof {
                        reveal(Seq::filter);
                        assert(value@.take(i + 1).drop_last() =~= value@.take(i as int));
                        assert(value@.take(i + 1).last() == q);
                    }
                    if q.position.y >= ym {
                        if q.position.x >= xm {
                            ne_v.push(q);
                        } else {
                            nw_v.push(q);
                        }
                    } else {
                        if q.position.x >= xm {
                            se_v.push(q);
                        } else {
                            sw_v.push(q);
                        }
                    }
                    i += 1;
                }
                proof {
                    assert(value@.take(value@.len() as int) =~= value@);
                }
                let leaf_nw = Node::Leaf { value: nw_v };
                let leaf_ne = Node::Leaf { value: ne_v };
                let leaf_sw = Node::Leaf { value: sw_v };
                let leaf_se = Node::Leaf { value: se_v };
                proof {
                    assert(leaf_nw.view() == SpecNode::Leaf {
                        value: split_child(value@, rect, false, true),
                    });
                    assert(leaf_ne.view() == SpecNode::Leaf {
                        value: split_child(value@, rect, true, true),
                    });
                    assert(leaf_sw.view() == SpecNode::Leaf {
                        value: split_child(value@, rect, false, false),
                    });
                    assert(leaf_se.view() == SpecNode::Leaf {
                        value: split_child(value@, rect, true, false),
                    });
                }
                Node::Branch {
                    nw: Box::new(leaf_nw),
                    ne: Box::new(leaf_ne),
                    sw: Box::new(leaf_sw),
                    se: Box::new(leaf_se),
                }
            } else {
                Node::Leaf { value }
            }
        },
        Node::Branch { nw, ne, sw, se } => {
            if p.position.x >= xm {
                if p.position.y >= ym {
                    let child = insert_node(*ne, p, xm, ym, w - w2, h - h2, cap);
                    Node::Branch { nw, ne: Box::new(child), sw, se }
                } else {
                    let child = insert_node(*se, p, xm, y, w - w2, h2, cap);
                    Node::Branch { nw, ne, sw, se: Box::new(child) }
                }
            } else {
                if p.position.y >= ym {
                    let child = insert_node(*nw, p, x, ym, w2, h - h2, cap);
                    Node::Branch { nw: Box::new(child), ne, sw, se }
                } else {
                    let child = insert_node(*sw, p, x, y, w2, h2, cap);
                    Node::Branch { nw, ne, sw: Box::new(child), se }
                }
            }
        },
    }
}

impl QuadTree {
    /// The broad-phase query: every particle of a leaf whose rectangle meets
    /// the query square is returned, in traversal order. The result is a
    /// superset of the particles within true distance `radius` of the center
    /// (`lemma_broad_phase_superset`); callers re-check exact distance.
    pub fn query_radius(&self, x: i64, y: i64, radius: i64) -> (res: Vec<Point>)
        requires
            self@.wf(),
            coord_ok(x as int),
            coord_ok(y as int),
            0 <= radius <= COORD_LIMIT,
        ensures
            res@ == self@.query(x as int, y as int, radius as int),
    {
        let ghost total = self@.query(x as int, y as int, radius as int);
        let mut res: Vec<Point> = Vec::new();
        let mut stack: Vec<(&Node, i64, i64, i64, i64)> = Vec::new();
        stack.push((&self.root, self.left_x, self.bottom_y, self.width, self.height));
        proof {
            let s = stack@;
            assert(s.drop_last() =~= Seq::<(&Node, i64, i64, i64, i64)>::empty());
            assert(stack_queries(s.drop_last(), x as int, y as int, radius as int)
                == Seq::<Point>::empty());
            assert(entry_rect(s.last()) == self@.rect);
            assert(stack_queries(s, x as int, y as int, radius as int) == total
                + Seq::<Point>::empty());
            assert(res@ + stack_queries(s, x as int, y as int, radius as int) =~= total);
            assert(entry_valid(s[0]));
        }
        while stack.len() != 0
            invariant
                coord_ok(x as int),
                coord_ok(y as int),
                0 <= radius <= COORD_LIMIT,
                forall|k: int| 0 <= k < stack@.len() ==> entry_valid(#[trigger] stack@[k]),
                res@ + stack_queries(stack@, x as int, y as int, radius as int) == total,
            decreases stack_sizes(stack@),
        {
            let ghost pre_stack = stack@;
            let top = stack.pop().unwrap();
            proof {
                assert(pre_stack.drop_last() =~= stack@);
                assert(pre_stack.last() == top);
                assert(entry_valid(pre_stack[pre_stack.len() - 1]));
                lemma_node_size_pos((*top.0).view());
                assert(stack_sizes(pre_stack) == node_size((*top.0).view()) + stack_sizes(stack@));
            }
            let (node, ex, ey, ew, eh) = top;
            let ghost rect = rect_of(ex, ey, ew, eh);
            let ghost q_top = (*node).view().query(x as int, y as int, radius as int, rect);
            let ghost rest = stack_queries(stack@, x as int, y as int, radius as int);
            proof {
                assert(stack_queries(pre_stack, x as int, y as int, radius as int) == q_top
                    + rest);
            }
            if x + radius < ex || x - radius > ex + ew || y + radius < ey || y - radius > ey + eh {
                proof {
                    assert(!rect.meets_square(x as int, y as int, radius as int));
                    assert(q_top =~= Seq::<Point>::empty());
                    assert(res@ + rest =~= res@ + (q_top + rest));
                }
            } else {
                match node {
                    Node::Leaf { value } => {
                        let ghost snap = res@;
                        let mut i: usize = 0;
                        while i < value.len()
                            invariant
                                0 <= i <= value@.len(),
                                res@ == snap + value@.take(i as int),
                            decreases value@.len() - i,
                        {
                            res.push(value[i]);
                            proof {
                                assert(snap + value@.take(i + 1) =~= (snap + value@.take(
                                    i as int,
                                )).push(value@[i as int]));
                            }
                            i += 1;
                        }
                        proof {
                            assert(value@.take(value@.len() as int) =~= value@);
                            assert(q_top == value@);
                            assert((snap + value@) + rest =~= snap + (q_top + rest));
                        }
                    },
                    Node::Branch { nw, ne, sw, se } => {
                        let w2 = half_trunc(ew);
                        let h2 = half_trunc(eh);
                        let xm = ex + w2;
                        let ym = ey + h2;
                        proof {
                            assert(0 <= ew as int / 2 <= ew as int) by (nonlinear_arith)
                                requires
                                    ew as int >= 0,
                            ;
                            assert(0 <= eh as int / 2 <= eh as int) by (nonlinear_arith)
                                requires
                                    eh as int >= 0,
                            ;
                            assert(rect.quadrant(true, true).valid());
                            assert(rect.quadrant(true, false).valid());
                            assert(rect.quadrant(false, true).valid());
                            assert(rect.quadrant(false, false).valid());
                        }
                        let ghost s0 = stack@;
                        let ghost qa = (**nw).view().query(
                            x as int,
                            y as int,
                            radius as int,
                            rect.quadrant(false, true),
                        );
                        let ghost qb = (**ne).view().query(
                            x as int,
                            y as int,
                            radius as int,
                            rect.quadrant(true, true),
                        );
                        let ghost qc = (**sw).view().query(
                            x as int,
                            y as int,
                            radius as int,
                            rect.quadrant(false, false),
                        );
                        let ghost qd = (**se).view().query(
                            x as int,
                            y as int,
                            radius as int,
                            rect.quadrant(true, false),
                        );
                        let wr: i64 = ew - w2;
                        let hn: i64 = eh - h2;
                        proof {
                            assert((*node).view() == SpecNode::Branch {
                                nw: Box::new((**nw).view()),
                                ne: Box::new((**ne).view()),
                                sw: Box::new((**sw).view()),
                                se: Box::new((**se).view()),
                            });
                            assert(node_size((*node).view()) == 1 + node_size((**nw).view())
                                + node_size((**ne).view()) + node_size((**sw).view()) + node_size(
                                (**se).view(),
                            ));
                            assert(rect_of(ex, ym, w2, hn) == rect.quadrant(false, true));
                            assert(rect_of(xm, ym, wr, hn) == rect.quadrant(true, true));
                            assert(rect_of(ex, ey, w2, h2) == rect.quadrant(false, false));
                            assert(rect_of(xm, ey, wr, h2) == rect.quadrant(true, false));
                            assert(q_top == ((qa + qb) + qc) + qd);
                        }
                        stack.push((&**se, xm, ey, wr, h2));
                        let ghost s1 = stack@;
                        proof {
                            assert(s1.drop_last() =~= s0);
                            assert(stack_queries(s1, x as int, y as int, radius as int) == qd
                                + rest);
                            assert(stack_sizes(s1) == node_size((**se).view()) + stack_sizes(s0));
                        }
                        stack.push((&**sw, ex, ey, w2, h2));
                        let ghost s2 = stack@;
                        proof {
                            assert(s2.drop_last() =~= s1);
                            assert(stack_queries(s2, x as int, y as int, radius as int) == qc + (qd
                                + rest));
                            assert(stack_sizes(s2) == node_size((**sw).view()) + stack_sizes(s1));
                        }
                        stack.push((&**ne, xm, ym, wr, hn));
                        let ghost s3 = stack@;
                        proof {
                            assert(s3.drop_last() =~= s2);
                            assert(stack_queries(s3, x as int, y as int, radius as int) == qb + (qc
                                + (qd + rest)));
                            assert(stack_sizes(s3) == node_size((**ne).view()) + stack_sizes(s2));
                        }
                        stack.push((&**nw, ex, ym, w2, hn));
                        proof {
                            assert(stack@.drop_last() =~= s3);
                            assert(stack_queries(stack@, x as int, y as int, radius as int) == qa
                                + (qb + (qc + (qd + rest))));
                            assert(stack_sizes(stack@) == node_size((**nw).view()) + stack_sizes(
                                s3,
                            ));
                            assert(stack_sizes(stack@) < stack_sizes(pre_stack));
                            assert(res@ + (qa + (qb + (qc + (qd + rest)))) =~= res@ + (q_top
                                + rest));
                            assert forall|k: int| 0 <= k < stack@.len() implies entry_valid(
                                #[trigger] stack@[k],
                            ) by {
                                if k < s0.len() {
                                    assert(stack@[k] == pre_stack[k]);
                                }
                            }
                        }
                    },
                }
            }
        }
        proof {
            assert(res@ + Seq::<Point>::empty() =~= res@);
        }
        res
    }
}

/// The rectangle of one work-list entry.
spec fn entry_rect(e: (&Node, i64, i64, i64, i64)) -> SpecRect {
    rect_of(e.1, e.2, e.3, e.4)
}

spec fn entry_valid(e: (&Node, i64, i64, i64, i64)) -> bool {
    entry_rect(e).valid()
}

/// What remains to be returned: the queries of the work-list entries, from
/// the top of the stack down.
spec fn stack_queries(s: Seq<(&Node, i64, i64, i64, i64)>, cx: int, cy: int, r: int) -> Seq<Point>
    decreases s.len(),
{
    if s.len() == 0 {
        Seq::empty()
    } else {
        (*s.last().0).view().query(cx, cy, r, entry_rect(s.last())) + stack_queries(
            s.drop_last(),
            cx,
            cy,
            r,
        )
    }
}

/// The number of nodes below and including one node: the loop measure.
spec fn node_size(n: SpecNode) -> nat
    decreases n,
{
    match n {
        SpecNode::Leaf { .. } => 1,
        SpecNode::Branch { nw, ne, sw, se } => 1 + node_size(*nw) + node_size(*ne) + node_size(*sw)
            + node_size(*se),
    }
}

proof fn lemma_node_size_pos(n: SpecNode)
    ensures
        node_size(n) >= 1,
{
    match n {
        SpecNode::Leaf { .. } => {
        },
        SpecNode::Branch { .. } => {
        },
    }
}

spec fn stack_sizes(s: Seq<(&Node, i64, i64, i64, i64)>) -> nat
    decreases s.len(),
{
    if s.len() == 0 {
        0
    } else {
        node_size((*s.last().0).view()) + stack_sizes(s.drop_last())
    }
}

/// One leaf rectangle of the index, for drawing the tree's outlines.
#[derive(Clone, Copy, Debug, PartialEq, Eq, Structural)]
pub struct OutlineRect {
    pub left: i64,
    pub bottom: i64,
    pub width: i64,
    pub height: i64,
}

/// The rectangles of all leaves below a node, in traversal order.
pub open spec fn spec_leaf_rects(n: SpecNode, rect: SpecRect) -> Seq<OutlineRect>
    decreases n,
{
    match n {
        SpecNode::Leaf { value } => seq![
            OutlineRect {
                left: rect.x as i64,
                bottom: rect.y as i64,
                width: rect.w as i64,
                height: rect.h as i64,
            },
        ],
        SpecNode::Branch { nw, ne, sw, se } => spec_leaf_rects(*nw, rect.quadrant(false, true))
            + spec_leaf_rects(*ne, rect.quadrant(true, true)) + spec_leaf_rects(
            *sw,
            rect.quadrant(false, false),
        ) + spec_leaf_rects(*se, rect.quadrant(true, false)),
    }
}

impl QuadTree {
    /// The rectangles of the tree's leaves, for rendering its outlines.
    pub fn leaf_rects(&self) -> (res: Vec<OutlineRect>)
        requires
            self@.rect.valid(),
        ensures
            res@ == spec_leaf_rects(self@.root, self@.rect),
    {
        let mut res: Vec<OutlineRect> = Vec::new();
        leaf_rects_node(
            &self.root,
            self.left_x,
            self.bottom_y,
            self.width,
            self.height,
            &mut res,
        );
        proof {
            assert(Seq::<OutlineRect>::empty() + spec_leaf_rects(self@.root, self@.rect)
                =~= spec_leaf_rects(self@.root, self@.rect));
        }
        res
    }
}

/// Collects the leaf rectangles below one node.
fn leaf_rects_node(n: &Node, x: i64, y: i64, w: i64, h: i64, out: &mut Vec<OutlineRect>)
    requires
        rect_of(x, y, w, h).valid(),
    ensures
        final(out)@ == old(out)@ + spec_leaf_rects(n.view(), rect_of(x, y, w, h)),
    decreases *n,
{
    let ghost rect = rect_of(x, y, w, h);
    match n {
        Node::Leaf { value } => {
            out.push(OutlineRect { left: x, bottom: y, width: w, height: h });
            proof {
                assert(out@ =~= old(out)@ + spec_leaf_rects(n.view(), rect));
            }
        },
        Node::Branch { nw, ne, sw, se } => {
            let w2 = half_trunc(w);
            let h2 = half_trunc(h);
            let xm = x + w2;
            let ym = y + h2;
            proof {
                assert(0 <= w as int / 2 <= w as int) by (nonlinear_arith)
                    requires
                        w as int >= 0,
                ;
                assert(0 <= h as int / 2 <= h as int) by (nonlinear_arith)
                    requires
                        h as int >= 0,
                ;
                assert(rect.quadrant(true, true).valid());
                assert(rect.quadrant(true, false).valid());
                assert(rect.quadrant(false, true).valid());
                assert(rect.quadrant(false, false).valid());
            }
            let ghost snap = out@;
            let ghost a = spec_leaf_rects((**nw).view(), rect.quadrant(false, true));
            let ghost b = spec_leaf_rects((**ne).view(), rect.quadrant(true, true));
            let ghost c = spec_leaf_rects((**sw).view(), rect.quadrant(false, false));
            let ghost d = spec_leaf_rects((**se).view(), rect.quadrant(true, false));
            leaf_rects_node(&**nw, x, ym, w2, h - h2, out);
            leaf_rects_node(&**ne, xm, ym, w - w2, h - h2, out);
            leaf_rects_node(&**sw, x, y, w2, h2, out);
            leaf_rects_node(&**se, xm, y, w - w2, h2, out);
            proof {
                assert((((snap + a) + b) + c) + d =~= snap + (a + b + c + d));
            }
        },
    }
}

/// Inserting a particle that lies in a well-formed node's rectangle keeps the
/// node well-formed.
pub proof fn lemma_insert_wf(n: SpecNode, p: Point, rect: SpecRect, cap: int)
    requires
        n.wf(rect),
        rect.valid(),
        rect.contains(p.position),
    ensures
        n.insert(p, rect, cap).wf(rect),
    decreases n,
{
    assert(0 <= rect.w / 2 <= rect.w) by (nonlinear_arith)
        requires
            rect.w >= 0,
    ;
    assert(0 <= rect.h / 2 <= rect.h) by (nonlinear_arith)
        requires
            rect.h >= 0,
    ;
    match n {
        SpecNode::Leaf { value } => {
            let v2 = value.push(p);
            assert(forall|i: int| 0 <= i < v2.len() ==> rect.contains(#[trigger] v2[i].position));
            if v2.len() > cap {
                lemma_split_child_wf(v2, rect, false, true);
                lemma_split_child_wf(v2, rect, true, true);
                lemma_split_child_wf(v2, rect, false, false);
                lemma_split_child_wf(v2, rect, true, false);
                assert(SpecNode::Leaf { value: split_child(v2, rect, false, true) }.wf(
                    rect.quadrant(false, true),
                ));
                assert(SpecNode::Leaf { value: split_child(v2, rect, true, true) }.wf(
                    rect.quadrant(true, true),
                ));
                assert(SpecNode::Leaf { value: split_child(v2, rect, false, false) }.wf(
                    rect.quadrant(false, false),
                ));
                assert(SpecNode::Leaf { value: split_child(v2, rect, true, false) }.wf(
                    rect.quadrant(true, false),
                ));
            }
        },
        SpecNode::Branch { nw, ne, sw, se } => {
            let east = goes_east(p.position, rect);
            let north = goes_north(p.position, rect);
            let q = rect.quadrant(east, north);
            assert(q.valid());
            assert(q.contains(p.position));
            if east {
                if north {
                    lemma_insert_wf(*ne, p, q, cap);
                } else {
                    lemma_insert_wf(*se, p, q, cap);
                }
            } else {
                if north {
                    lemma_insert_wf(*nw, p, q, cap);
                } else {
                    lemma_insert_wf(*sw, p, q, cap);
                }
            }
        },
    }
}

/// Each quadrant of a split holds only positions inside that quadrant's
/// rectangle.
proof fn lemma_split_child_wf(value: Seq<Point>, rect: SpecRect, east: bool, north: bool)
    requires
        rect.valid(),
        forall|i: int| 0 <= i < value.len() ==> rect.contains(#[trigger] value[i].position),
    ensures
        forall|i: int|
            0 <= i < split_child(value, rect, east, north).len() ==> rect.quadrant(
                east,
                north,
            ).contains(#[trigger] split_child(value, rect, east, north)[i].position),
{
    let child = split_child(value, rect, east, north);
    let pred = |q: Point|
        goes_east(q.position, rect) == east && goes_north(q.position, rect) == north;
    assert(0 <= rect.w / 2 <= rect.w) by (nonlinear_arith)
        requires
            rect.w >= 0,
    ;
    assert(0 <= rect.h / 2 <= rect.h) by (nonlinear_arith)
        requires
            rect.h >= 0,
    ;
    assert forall|i: int| 0 <= i < child.len() implies rect.quadrant(east, north).contains(
        #[trigger] child[i].position,
    ) by {
        value.lemma_filter_pred(pred, i);
        assert(child.contains(child[i]));
        value.lemma_filter_contains_rev(pred, child[i]);
        let j = choose|j: int| 0 <= j < value.len() && value[j] == child[i];
        assert(rect.contains(value[j].position));
    }
}

/// An element of a four-way concatenation lies in one of the four parts.
proof fn lemma_concat4_elim(a: Seq<Point>, b: Seq<Point>, c: Seq<Point>, d: Seq<Point>, p: Point)
    requires
        (a + b + c + d).contains(p),
    ensures
        a.contains(p) || b.contains(p) || c.contains(p) || d.contains(p),
{
    let s = a + b + c + d;
    let i = choose|i: int| 0 <= i < s.len() && s[i] == p;
    if i < a.len() {
        assert(a[i] == p);
    } else if i < a.len() + b.len() {
        assert(b[i - a.len()] == p);
    } else if i < a.len() + b.len() + c.len() {
        assert(c[i - a.len() - b.len()] == p);
    } else {
        assert(d[i - a.len() - b.len() - c.len()] == p);
    }
}

/// An element of one of four parts lies in their concatenation.
proof fn lemma_concat4_intro(a: Seq<Point>, b: Seq<Point>, c: Seq<Point>, d: Seq<Point>, p: Point)
    requires
        a.contains(p) || b.contains(p) || c.contains(p) || d.contains(p),
    ensures
        (a + b + c + d).contains(p),
{
    let s = a + b + c + d;
    if a.contains(p) {
        let i = choose|i: int| 0 <= i < a.len() && a[i] == p;
        assert(s[i] == p);
    } else if b.contains(p) {
        let i = choose|i: int| 0 <= i < b.len() && b[i] == p;
        assert(s[a.len() + i] == p);
    } else if c.contains(p) {
        let i = choose|i: int| 0 <= i < c.len() && c[i] == p;
        assert(s[a.len() + b.len() + i] == p);
    } else {
        let i = choose|i: int| 0 <= i < d.len() && d[i] == p;
        assert(s[a.len() + b.len() + c.len() + i] == p);
    }
}

/// Every quadrant rectangle lies inside its parent.
proof fn lemma_quadrant_in_parent(rect: SpecRect, east: bool, north: bool, p: Vec2)
    requires
        rect.valid(),
        rect.quadrant(east, north).contains(p),
    ensures
        rect.contains(p),
        rect.quadrant(east, north).valid(),
{
    assert(0 <= rect.w / 2 <= rect.w) by (nonlinear_arith)
        requires
            rect.w >= 0,
    ;
    assert(0 <= rect.h / 2 <= rect.h) by (nonlinear_arith)
        requires
            rect.h >= 0,
    ;
}

/// In a well-formed node, every held particle lies in the node's rectangle.
pub proof fn lemma_wf_points_in_rect(n: SpecNode, rect: SpecRect, p: Point)
    requires
        n.wf(rect),
        rect.valid(),
        n.points().contains(p),
    ensures
        rect.contains(p.position),
    decreases n,
{
    match n {
        SpecNode::Leaf { value } => {
            let i = choose|i: int| 0 <= i < value.len() && value[i] == p;
            assert(rect.contains(value[i].position));
        },
        SpecNode::Branch { nw, ne, sw, se } => {
            let a = (*nw).points();
            let b = (*ne).points();
            let c = (*sw).points();
            let d = (*se).points();
            lemma_concat4_elim(a, b, c, d, p);
            assert(0 <= rect.w / 2 <= rect.w) by (nonlinear_arith)
                requires
                    rect.w >= 0,
            ;
            assert(0 <= rect.h / 2 <= rect.h) by (nonlinear_arith)
                requires
                    rect.h >= 0,
            ;
            if a.contains(p) {
                lemma_wf_points_in_rect(*nw, rect.quadrant(false, true), p);
                lemma_quadrant_in_parent(rect, false, true, p.position);
            } else if b.contains(p) {
                lemma_wf_points_in_rect(*ne, rect.quadrant(true, true), p);
                lemma_quadrant_in_parent(rect, true, true, p.position);
            } else if c.contains(p) {
                lemma_wf_points_in_rect(*sw, rect.quadrant(false, false), p);
                lemma_quadrant_in_parent(rect, false, false, p.position);
            } else {
                lemma_wf_points_in_rect(*se, rect.quadrant(true, false), p);
                lemma_quadrant_in_parent(rect, true, false, p.position);
            }
        },
    }
}

/// Everything a query returns is held by the node.
pub proof fn lemma_query_in_points(
    n: SpecNode,
    cx: int,
    cy: int,
    r: int,
    rect: SpecRect,
    p: Point,
)
    requires
        n.query(cx, cy, r, rect).contains(p),
    ensures
        n.points().contains(p),
    decreases n,
{
    if rect.meets_square(cx, cy, r) {
        match n {
            SpecNode::Leaf { value } => {
            },
            SpecNode::Branch { nw, ne, sw, se } => {
                let a = (*nw).query(cx, cy, r, rect.quadrant(false, true));
                let b = (*ne).query(cx, cy, r, rect.quadrant(true, true));
                let c = (*sw).query(cx, cy, r, rect.quadrant(false, false));
                let d = (*se).query(cx, cy, r, rect.quadrant(true, false));
                lemma_concat4_elim(a, b, c, d, p);
                if a.contains(p) {
                    lemma_query_in_points(*nw, cx, cy, r, rect.quadrant(false, true), p);
                } else if b.contains(p) {
                    lemma_query_in_points(*ne, cx, cy, r, rect.quadrant(true, true), p);
                } else if c.contains(p) {
                    lemma_query_in_points(*sw, cx, cy, r, rect.quadrant(false, false), p);
                } else {
                    lemma_query_in_points(*se, cx, cy, r, rect.quadrant(true, false), p);
                }
                lemma_concat4_intro(
                    (*nw).points(),
                    (*ne).points(),
                    (*sw).points(),
                    (*se).points(),
                    p,
                );
            },
        }
    }
}

/// A held particle inside the query square is always returned.
pub proof fn lemma_query_square_superset(
    n: SpecNode,
    cx: int,
    cy: int,
    r: int,
    rect: SpecRect,
    p: Point,
)
    requires
        n.wf(rect),
        rect.valid(),
        n.points().contains(p),
        cx - r <= p.position.x as int <= cx + r,
        cy - r <= p.position.y as int <= cy + r,
    ensures
        n.query(cx, cy, r, rect).contains(p),
    decreases n,
{
    lemma_wf_points_in_rect(n, rect, p);
    assert(rect.meets_square(cx, cy, r));
    match n {
        SpecNode::Leaf { value } => {
        },
        SpecNode::Branch { nw, ne, sw, se } => {
            let a = (*nw).points();
            let b = (*ne).points();
            let c = (*sw).points();
            let d = (*se).points();
            lemma_concat4_elim(a, b, c, d, p);
            assert(0 <= rect.w / 2 <= rect.w) by (nonlinear_arith)
                requires
                    rect.w >= 0,
            ;
            assert(0 <= rect.h / 2 <= rect.h) by (nonlinear_arith)
                requires
                    rect.h >= 0,
            ;
            if a.contains(p) {
                lemma_query_square_superset(*nw, cx, cy, r, rect.quadrant(false, true), p);
            } else if b.contains(p) {
                lemma_query_square_superset(*ne, cx, cy, r, rect.quadrant(true, true), p);
            } else if c.contains(p) {
                lemma_query_square_superset(*sw, cx, cy, r, rect.quadrant(false, false), p);
            } else {
                lemma_query_square_superset(*se, cx, cy, r, rect.quadrant(true, false), p);
            }
            lemma_concat4_intro(
                (*nw).query(cx, cy, r, rect.quadrant(false, true)),
                (*ne).query(cx, cy, r, rect.quadrant(true, true)),
                (*sw).query(cx, cy, r, rect.quadrant(false, false)),
                (*se).query(cx, cy, r, rect.quadrant(true, false)),
                p,
            );
        },
    }
}

/// Broad-phase superset: a particle the index holds whose true center
/// distance to `(cx, cy)` is at most `r` is always among the query results.
pub proof fn lemma_broad_phase_superset(t: SpecTree, cx: int, cy: int, r: int, p: Point)
    requires
        t.wf(),
        r >= 0,
        t.points().contains(p),
        (p.position.x - cx) * (p.position.x - cx) + (p.position.y - cy) * (p.position.y - cy) <= r
            * r,
    ensures
        t.query(cx, cy, r).contains(p),
{
    let dx = p.position.x - cx;
    let dy = p.position.y - cy;
    assert(-r <= dx <= r && -r <= dy <= r) by (nonlinear_arith)
        requires
            dx * dx + dy * dy <= r * r,
            r >= 0,
    ;
    lemma_query_square_superset(t.root, cx, cy, r, t.rect, p);
}

/// Exclusion: a particle outside the index's bounds is never returned by any
/// query against that index.
pub proof fn lemma_query_exclusion(t: SpecTree, cx: int, cy: int, r: int, p: Point)
    requires
        t.wf(),
        !t.rect.contains(p.position),
    ensures
        !t.query(cx, cy, r).contains(p),
{
    if t.query(cx, cy, r).contains(p) {
        lemma_query_in_points(t.root, cx, cy, r, t.rect, p);
        lemma_wf_points_in_rect(t.root, t.rect, p);
    }
}

/// Everything a node holds after an insert was held before or is the
/// inserted particle.
pub proof fn lemma_insert_points_subset(n: SpecNode, p: Point, rect: SpecRect, cap: int, q: Point)
    requires
        n.insert(p, rect, cap).points().contains(q),
    ensures
        n.points().contains(q) || q == p,
    decreases n,
{
    match n {
        SpecNode::Leaf { value } => {
            let v2 = value.push(p);
            if v2.len() > cap {
                let a = split_child(v2, rect, false, true);
                let b = split_child(v2, rect, true, true);
                let c = split_child(v2, rect, false, false);
                let d = split_child(v2, rect, true, false);
                assert(SpecNode::Leaf { value: a }.points() == a);
                assert(SpecNode::Leaf { value: b }.points() == b);
                assert(SpecNode::Leaf { value: c }.points() == c);
                assert(SpecNode::Leaf { value: d }.points() == d);
                assert(n.insert(p, rect, cap).points() == a + b + c + d);
                lemma_concat4_elim(a, b, c, d, q);
                if a.contains(q) {
                    v2.lemma_filter_contains_rev(
                        |t: Point|
                            goes_east(t.position, rect) == false && goes_north(t.position, rect)
                                == true,
                        q,
                    );
                } else if b.contains(q) {
                    v2.lemma_filter_contains_rev(
                        |t: Point|
                            goes_east(t.position, rect) == true && goes_north(t.position, rect)
                                == true,
                        q,
                    );
                } else if c.contains(q) {
                    v2.lemma_filter_contains_rev(
                        |t: Point|
                            goes_east(t.position, rect) == false && goes_north(t.position, rect)
                                == false,
                        q,
                    );
                } else {
                    v2.lemma_filter_contains_rev(
                        |t: Point|
                            goes_east(t.position, rect) == true && goes_north(t.position, rect)
                                == false,
                        q,
                    );
                }
            }
            let i = choose|i: int| 0 <= i < v2.len() && v2[i] == q;
            if i < value.len() {
                assert(value[i] == q);
            }
        },
        SpecNode::Branch { nw, ne, sw, se } => {
            let east = goes_east(p.position, rect);
            let north = goes_north(p.position, rect);
            let a0 = (*nw).points();
            let b0 = (*ne).points();
            let c0 = (*sw).points();
            let d0 = (*se).points();
            let a = if !east && north {
                (*nw).insert(p, rect.quadrant(false, true), cap).points()
            } else {
                a0
            };
            let b = if east && north {
                (*ne).insert(p, rect.quadrant(true, true), cap).points()
            } else {
                b0
            };
            let c = if !east && !north {
                (*sw).insert(p, rect.quadrant(false, false), cap).points()
            } else {
                c0
            };
            let d = if east && !north {
                (*se).insert(p, rect.quadrant(true, false), cap).points()
            } else {
                d0
            };
            if east {
                if north {
                    assert(n.insert(p, rect, cap).points() == a + b + c + d);
                } else {
                    assert(n.insert(p, rect, cap).points() == a + b + c + d);
                }
            } else {
                if north {
                    assert(n.insert(p, rect, cap).points() == a + b + c + d);
                } else {
                    assert(n.insert(p, rect, cap).points() == a + b + c + d);
                }
            }
            lemma_concat4_elim(a, b, c, d, q);
            if a.contains(q) && !(!east && north) {
            } else if a.contains(q) {
                lemma_insert_points_subset(*nw, p, rect.quadrant(false, true), cap, q);
            } else if b.contains(q) && (east && north) {
                lemma_insert_points_subset(*ne, p, rect.quadrant(true, true), cap, q);
            } else if c.contains(q) && (!east && !north) {
                lemma_insert_points_subset(*sw, p, rect.quadrant(false, false), cap, q);
            } else if d.contains(q) && (east && !north) {
                lemma_insert_points_subset(*se, p, rect.quadrant(true, false), cap, q);
            }
            if a0.contains(q) || b0.contains(q) || c0.contains(q) || d0.contains(q) {
                lemma_concat4_intro(a0, b0, c0, d0, q);
            }
        },
    }
}

/// Everything the built tree holds is a particle of the input snapshot.
pub proof fn lemma_build_points_subset(points: Seq<Point>, rect: SpecRect, cap: int, q: Point)
    requires
        spec_build_root(points, rect, cap).points().contains(q),
    ensures
        points.contains(q),
    decreases points.len(),
{
    if points.len() > 0 {
        let prev = spec_build_root(points.drop_last(), rect, cap);
        let p = points.last();
        if rect.contains(p.position) {
            lemma_insert_points_subset(prev, p, rect, cap, q);
        }
        if q == p {
            assert(points[points.len() - 1] == q);
        } else {
            lemma_build_points_subset(points.drop_last(), rect, cap, q);
            let i = choose|i: int| 0 <= i < points.drop_last().len() && points.drop_last()[i] == q;
            assert(points[i] == q);
        }
    }
}

/// The four quadrant filters of a split partition the particles: together
/// they hold exactly the split leaf's particles.
proof fn lemma_split_partition(value: Seq<Point>, rect: SpecRect)
    ensures
        split_child(value, rect, false, true).to_multiset().add(
            split_child(value, rect, true, true).to_multiset(),
        ).add(split_child(value, rect, false, false).to_multiset()).add(
            split_child(value, rect, true, false).to_multiset(),
        ) =~= value.to_multiset(),
    decreases value.len(),
{
    broadcast use vstd::seq_lib::group_to_multiset_ensures;
    broadcast use vstd::multiset::group_multiset_axioms;

    reveal(Seq::filter);
    if value.len() == 0 {
    } else {
        let rest = value.drop_last();
        let last = value.last();
        lemma_split_partition(rest, rect);
        assert(value =~= rest.push(last));
        assert(split_child(value, rect, false, true) == if !goes_east(last.position, rect)
            && goes_north(last.position, rect) {
            split_child(rest, rect, false, true).push(last)
        } else {
            split_child(rest, rect, false, true)
        });
        assert(split_child(value, rect, true, true) == if goes_east(last.position, rect)
            && goes_north(last.position, rect) {
            split_child(rest, rect, true, true).push(last)
        } else {
            split_child(rest, rect, true, true)
        });
        assert(split_child(value, rect, false, false) == if !goes_east(last.position, rect)
            && !goes_north(last.position, rect) {
            split_child(rest, rect, false, false).push(last)
        } else {
            split_child(rest, rect, false, false)
        });
        assert(split_child(value, rect, true, false) == if goes_east(last.position, rect)
            && !goes_north(last.position, rect) {
            split_child(rest, rect, true, false).push(last)
        } else {
            split_child(rest, rect, true, false)
        });
    }
}

/// Inserting a particle adds exactly that particle to a node's contents.
pub proof fn lemma_insert_points_multiset(n: SpecNode, p: Point, rect: SpecRect, cap: int)
    ensures
        n.insert(p, rect, cap).points().to_multiset() =~= n.points().to_multiset().insert(p),
    decreases n,
{
    broadcast use vstd::seq_lib::group_to_multiset_ensures;
    broadcast use vstd::multiset::group_multiset_axioms;
    broadcast use vstd::seq_lib::lemma_multiset_commutative;

    match n {
        SpecNode::Leaf { value } => {
            let v2 = value.push(p);
            if v2.len() > cap {
                let a = split_child(v2, rect, false, true);
                let b = split_child(v2, rect, true, true);
                let c = split_child(v2, rect, false, false);
                let d = split_child(v2, rect, true, false);
                assert(SpecNode::Leaf { value: a }.points() == a);
                assert(SpecNode::Leaf { value: b }.points() == b);
                assert(SpecNode::Leaf { value: c }.points() == c);
                assert(SpecNode::Leaf { value: d }.points() == d);
                assert(n.insert(p, rect, cap).points() == a + b + c + d);
                lemma_split_partition(v2, rect);
                assert((a + b + c + d).to_multiset() =~= a.to_multiset().add(b.to_multiset()).add(
                    c.to_multiset(),
                ).add(d.to_multiset()));
            }
        },
        SpecNode::Branch { nw, ne, sw, se } => {
            let east = goes_east(p.position, rect);
            let north = goes_north(p.position, rect);
            let a0 = (*nw).points();
            let b0 = (*ne).points();
            let c0 = (*sw).points();
            let d0 = (*se).points();
            if east {
                if north {
                    lemma_insert_points_multiset(*ne, p, rect.quadrant(true, true), cap);
                    let b1 = (*ne).insert(p, rect.quadrant(true, true), cap).points();
                    assert(n.insert(p, rect, cap).points() == a0 + b1 + c0 + d0);
                    assert((a0 + b1 + c0 + d0).to_multiset() =~= a0.to_multiset().add(
                        b1.to_multiset(),
                    ).add(c0.to_multiset()).add(d0.to_multiset()));
                    assert((a0 + b0 + c0 + d0).to_multiset() =~= a0.to_multiset().add(
                        b0.to_multiset(),
                    ).add(c0.to_multiset()).add(d0.to_multiset()));
                } else {
                    lemma_insert_points_multiset(*se, p, rect.quadrant(true, false), cap);
                    let d1 = (*se).insert(p, rect.quadrant(true, false), cap).points();
                    assert(n.insert(p, rect, cap).points() == a0 + b0 + c0 + d1);
                    assert((a0 + b0 + c0 + d1).to_multiset() =~= a0.to_multiset().add(
                        b0.to_multiset(),
                    ).add(c0.to_multiset()).add(d1.to_multiset()));
                    assert((a0 + b0 + c0 + d0).to_multiset() =~= a0.to_multiset().add(
                        b0.to_multiset(),
                    ).add(c0.to_multiset()).add(d0.to_multiset()));
                }
            } else {
                if north {
                    lemma_insert_points_multiset(*nw, p, rect.quadrant(false, true), cap);
                    let a1 = (*nw).insert(p, rect.quadrant(false, true), cap).points();
                    assert(n.insert(p, rect, cap).points() == a1 + b0 + c0 + d0);
                    assert((a1 + b0 + c0 + d0).to_multiset() =~= a1.to_multiset().add(
                        b0.to_multiset(),
                    ).add(c0.to_multiset()).add(d0.to_multiset()));
                    assert((a0 + b0 + c0 + d0).to_multiset() =~= a0.to_multiset().add(
                        b0.to_multiset(),
                    ).add(c0.to_multiset()).add(d0.to_multiset()));
                } else {
                    lemma_insert_points_multiset(*sw, p, rect.quadrant(false, false), cap);
                    let c1 = (*sw).insert(p, rect.quadrant(false, false), cap).points();
                    assert(n.insert(p, rect, cap).points() == a0 + b0 + c1 + d0);
                    assert((a0 + b0 + c1 + d0).to_multiset() =~= a0.to_multiset().add(
                        b0.to_multiset(),
                    ).add(c1.to_multiset()).add(d0.to_multiset()));
                    assert((a0 + b0 + c0 + d0).to_multiset() =~= a0.to_multiset().add(
                        b0.to_multiset(),
                    ).add(c0.to_multiset()).add(d0.to_multiset()));
                }
            }
        },
    }
}

/// The built tree holds exactly the particles of the snapshot that lie
/// inside the bounds, each as often as the snapshot holds it.
pub proof fn lemma_build_points_multiset(points: Seq<Point>, rect: SpecRect, cap: int)
    ensures
        spec_build_root(points, rect, cap).points().to_multiset() =~= survivors(
            points,
            rect,
        ).to_multiset(),
    decreases points.len(),
{
    broadcast use vstd::seq_lib::group_to_multiset_ensures;
    broadcast use vstd::multiset::group_multiset_axioms;

    reveal(Seq::filter);
    if points.len() > 0 {
        let rest = points.drop_last();
        let last = points.last();
        assert(survivors(points, rect) == if rect.contains(last.position) {
            survivors(rest, rect).push(last)
        } else {
            survivors(rest, rect)
        });
        lemma_build_points_multiset(rest, rect, cap);
        let prev = spec_build_root(rest, rect, cap);
        if rect.contains(last.position) {
            lemma_insert_points_multiset(prev, last, rect, cap);
        }
    }
}

/// Determinism: building from an identical snapshot, bounds and capacity
/// gives a structurally identical tree.
pub proof fn lemma_build_deterministic(
    ps1: Seq<Point>,
    ps2: Seq<Point>,
    rect: SpecRect,
    cap: int,
)
    requires
        ps1 == ps2,
    ensures
        spec_from_points(ps1, rect, cap) == spec_from_points(ps2, rect, cap),
{
}

/// With no more particles than the capacity, the built tree is one leaf and
/// every leaf holds at most `cap` particles.
/// The particles of a snapshot that survive the bounds filter.
pub open spec fn survivors(points: Seq<Point>, rect: SpecRect) -> Seq<Point> {
    points.filter(|p: Point| rect.contains(p.position))
}

pub proof fn lemma_build_capped_small(points: Seq<Point>, rect: SpecRect, cap: int)
    requires
        survivors(points, rect).len() <= cap,
    ensures
        spec_from_points(points, rect, cap).capped(cap),
{
    lemma_build_root_small(points, rect, cap);
}

proof fn lemma_build_root_small(points: Seq<Point>, rect: SpecRect, cap: int)
    requires
        survivors(points, rect).len() <= cap,
    ensures
        spec_build_root(points, rect, cap) matches SpecNode::Leaf { value } && value.len()
            <= survivors(points, rect).len(),
    decreases points.len(),
{
    reveal(Seq::filter);
    if points.len() > 0 {
        let rest = points.drop_last();
        let last = points.last();
        assert(survivors(points, rect) == if rect.contains(last.position) {
            survivors(rest, rect).push(last)
        } else {
            survivors(rest, rect)
        });
        lemma_build_root_small(rest, rect, cap);
    }
}

} // verus!
