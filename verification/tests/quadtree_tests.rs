use quadsim::particle::{Color, Point, Vec2};
use quadsim::quadtree::QuadTree;

fn mk(id: usize, x: i64, y: i64, radius: i64) -> Point {
    Point::new(
        id,
        Vec2::new(x, y),
        Vec2::new(x, y),
        Vec2::zero(),
        radius,
        Color { red: 0, green: 0, blue: 0 },
    )
}

fn sample_points() -> Vec<Point> {
    let mut pts = Vec::new();
    let coords: [(i64, i64); 12] = [
        (0, 0),
        (10, 10),
        (-50, 30),
        (200, -100),
        (-300, -300),
        (399, 399),
        (-400, -400),
        (1, 2),
        (3, 4),
        (-1, -2),
        (250, 250),
        (-250, 125),
    ];
    for (i, (x, y)) in coords.iter().enumerate() {
        pts.push(mk(i, *x, *y, 8));
    }
    pts
}

#[test]
fn broad_phase_superset_brute_force() {
    let pts = sample_points();
    let tree = QuadTree::from_points(pts.clone(), -400, -400, 800, 800, 2);
    let queries: [(i64, i64, i64); 4] = [(0, 0, 60), (200, -100, 1), (-400, -400, 500), (5, 5, 0)];
    for (cx, cy, r) in queries.iter() {
        let result = tree.query_radius(*cx, *cy, *r);
        for p in pts.iter() {
            let inside = p.position.x >= -400 && p.position.x <= 400 && p.position.y >= -400
                && p.position.y <= 400;
            let dx = p.position.x - cx;
            let dy = p.position.y - cy;
            if inside && dx * dx + dy * dy <= r * r {
                assert!(
                    result.iter().any(|q| q.id == p.id),
                    "particle {} missing from query ({}, {}, {})",
                    p.id,
                    cx,
                    cy,
                    r
                );
            }
        }
    }
}

#[test]
fn query_returns_only_held_particles() {
    let pts = sample_points();
    let tree = QuadTree::from_points(pts.clone(), -400, -400, 800, 800, 3);
    let result = tree.query_radius(0, 0, 800);
    for q in result.iter() {
        assert!(pts.iter().any(|p| p.id == q.id && p.position == q.position));
    }
}

#[test]
fn exclusion_filter_outside_bounds() {
    // A particle strictly outside the bounds, though within the query radius
    // of the bounds, never appears in any query result.
    let mut pts = sample_points();
    pts.push(mk(100, 420, 0, 8));
    let tree = QuadTree::from_points(pts, -400, -400, 800, 800, 2);
    let result = tree.query_radius(399, 0, 100);
    assert!(result.iter().all(|q| q.id != 100));
    let result2 = tree.query_radius(420, 0, 5);
    assert!(result2.iter().all(|q| q.id != 100));
}

#[test]
fn build_is_deterministic() {
    let pts = sample_points();
    let t1 = QuadTree::from_points(pts.clone(), -400, -400, 800, 800, 2);
    let t2 = QuadTree::from_points(pts, -400, -400, 800, 800, 2);
    assert_eq!(t1.leaf_rects(), t2.leaf_rects());
    let r1 = t1.query_radius(0, 0, 500);
    let r2 = t2.query_radius(0, 0, 500);
    assert_eq!(r1.len(), r2.len());
    for (a, b) in r1.iter().zip(r2.iter()) {
        assert_eq!(a, b);
    }
}

#[test]
fn small_input_stays_one_leaf() {
    // With no more particles than the bucket capacity the tree never splits:
    // a single leaf covering the whole bounds.
    let pts = vec![mk(0, 0, 0, 8), mk(1, 100, 100, 8), mk(2, -100, 50, 8)];
    let tree = QuadTree::from_points(pts, -400, -400, 800, 800, 3);
    let rects = tree.leaf_rects();
    assert_eq!(rects.len(), 1);
    assert_eq!(rects[0].left, -400);
    assert_eq!(rects[0].bottom, -400);
    assert_eq!(rects[0].width, 800);
    assert_eq!(rects[0].height, 800);
}

#[test]
fn overflow_splits_into_quadrants() {
    // Five particles, one per quadrant plus one more, with capacity 4: the
    // root splits into exactly four leaf quadrants.
    let pts = vec![
        mk(0, -200, 200, 8),
        mk(1, 200, 200, 8),
        mk(2, -200, -200, 8),
        mk(3, 200, -200, 8),
        mk(4, 100, 100, 8),
    ];
    let tree = QuadTree::from_points(pts, -400, -400, 800, 800, 4);
    let rects = tree.leaf_rects();
    assert_eq!(rects.len(), 4);
    for r in rects.iter() {
        assert_eq!(r.width, 400);
        assert_eq!(r.height, 400);
    }
}

#[test]
fn midpoint_tie_breaks_to_higher_quadrant() {
    // Bounds centered at the origin: a particle exactly on both midlines goes
    // to the north-east quadrant, so a query square touching only the
    // south-west quadrant must not return it once the root has split.
    let pts = vec![
        mk(0, 0, 0, 8),
        mk(1, -200, 200, 8),
        mk(2, 200, 200, 8),
        mk(3, -200, -200, 8),
        mk(4, 200, -200, 8),
    ];
    let tree = QuadTree::from_points(pts, -400, -400, 800, 800, 1);
    let sw_only = tree.query_radius(-300, -300, 50);
    assert!(sw_only.iter().all(|q| q.id != 0));
    let at_center = tree.query_radius(1, 1, 1);
    assert!(at_center.iter().any(|q| q.id == 0));
}

#[test]
fn empty_tree_query_is_empty() {
    let tree = QuadTree::new(-400, -400, 800, 800);
    assert_eq!(tree.query_radius(0, 0, 800).len(), 0);
    assert_eq!(tree.leaf_rects().len(), 1);
}

#[test]
fn duplicate_positions_do_not_crash_build() {
    // Particles sharing one position overflow a bucket that cannot separate;
    // the single-level split still terminates on every insert.
    let pts = vec![mk(0, 7, 7, 8), mk(1, 7, 7, 8), mk(2, 7, 7, 8), mk(3, 7, 7, 8)];
    let tree = QuadTree::from_points(pts, -400, -400, 800, 800, 1);
    let result = tree.query_radius(7, 7, 1);
    assert_eq!(result.len(), 4);
}
