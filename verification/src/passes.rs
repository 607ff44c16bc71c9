//! The step solver: configuration, the four per-store passes (two collision
//! relaxation passes around a wall pass and a pointer pass), integration, and
//! the fixed-substep frame step. Each pass maps an exact per-particle
//! function over the store; a collision pass first rebuilds the spatial index
//! from a snapshot of the store, so every particle resolves against
//! start-of-pass positions.

use vstd::prelude::*;
use crate::particle::{particle_ok, Point};
use crate::nums::{accel_ok, bound_ok, coord_ok, radius_ok, RADIUS_LIMIT};
use crate::quadtree::{
    lemma_build_points_subset, lemma_query_in_points, rect_of, spec_from_points, QuadTree,
    SpecRect, SpecTree,
};
use crate::solver::{
    collide_particle, integrate_particle, pointer_resolve, spec_collide_fold, spec_integrate,
    spec_pointer, spec_wall, wall_resolve,
};

verus! {

/// The externally settable configuration surface.
pub struct SimConfig {
    /// The simulation rectangle: left, bottom, width, height.
    pub left: i64,
    pub bottom: i64,
    pub width: i64,
    pub height: i64,
    /// The index's leaf split threshold.
    pub bucket_capacity: usize,
    /// The radius of the immovable pointer disk.
    pub pointer_radius: i64,
    /// Spawned radii are drawn from `[min_radius, max_radius]`.
    pub min_radius: i64,
    pub max_radius: i64,
    /// The constant downward acceleration, in coordinate sub-units.
    pub gravity: i64,
    /// The fixed nominal step is `1 / dt_denominator`: the sub-step count
    /// times the nominal frame rate, deliberately decoupled from measured
    /// wall-clock frame time.
    pub dt_denominator: i64,
    /// Sub-steps per animation frame.
    pub sub_step_count: usize,
    /// A spawned particle's previous position trails its position by this
    /// much along the x axis.
    pub spawn_offset: i64,
    /// When false, a frame step leaves the store untouched.
    pub running: bool,
    /// Display-only; carried through with no effect on the simulation.
    pub show_index_outlines: bool,
}

impl SimConfig {
    pub open spec fn bounds(self) -> SpecRect {
        rect_of(self.left, self.bottom, self.width, self.height)
    }

    pub open spec fn valid(self) -> bool {
        &&& self.bounds().valid()
        &&& self.bucket_capacity >= 1
        &&& radius_ok(self.pointer_radius as int)
        &&& radius_ok(self.min_radius as int)
        &&& radius_ok(self.max_radius as int)
        &&& self.min_radius < self.max_radius
        &&& accel_ok(self.gravity as int)
        &&& 1 <= self.dt_denominator <= 32768
        &&& self.sub_step_count >= 1
        &&& 0 <= self.spawn_offset <= RADIUS_LIMIT
    }
}

/// Every particle of a store is valid.
pub open spec fn all_ok(points: Seq<Point>) -> bool {
    forall|i: int| 0 <= i < points.len() ==> particle_ok(#[trigger] points[i])
}

/// One particle's result in a collision pass: its broad-phase neighbors are
/// queried from the snapshot tree with radius `p.radius + max_radius`, and
/// the particle resolves against each in turn.
pub open spec fn spec_collide_one(p: Point, tree: SpecTree, max_radius: i64) -> Point {
    let qs = tree.query(p.position.x as int, p.position.y as int, p.radius + max_radius);
    Point { position: spec_collide_fold(p.position, p, qs), ..p }
}

/// A whole collision pass: rebuild the index from the snapshot, then resolve
/// every particle against it.
pub open spec fn spec_collide_pass(
    points: Seq<Point>,
    rect: SpecRect,
    cap: int,
    max_radius: i64,
) -> Seq<Point> {
    let tree = spec_from_points(points, rect, cap);
    Seq::new(points.len(), |i: int| spec_collide_one(points[i], tree, max_radius))
}

pub open spec fn spec_wall_pass(
    points: Seq<Point>,
    gravity: i64,
    left: int,
    right: int,
    bottom: int,
) -> Seq<Point> {
    Seq::new(points.len(), |i: int| spec_wall(points[i], gravity, left, right, bottom))
}

pub open spec fn spec_pointer_pass(
    points: Seq<Point>,
    mx: i64,
    my: i64,
    pointer_radius: i64,
) -> Seq<Point> {
    Seq::new(points.len(), |i: int| spec_pointer(points[i], mx, my, pointer_radius))
}

pub open spec fn spec_integrate_pass(points: Seq<Point>, den: i64) -> Seq<Point> {
    Seq::new(points.len(), |i: int| spec_integrate(points[i], den))
}

/// An element-for-element copy of the store, for the index snapshot.
fn copy_points(points: &Vec<Point>) -> (r: Vec<Point>)
    ensures
        r@ == points@,
{
    let mut r: Vec<Point> = Vec::new();
    let mut i: usize = 0;
    while i < points.len()
        invariant
            0 <= i <= points@.len(),
            r@ == points@.take(i as int),
        decreases points@.len() - i,
    {
        r.push(points[i]);
        proof {
            assert(points@.take(i + 1) =~= points@.take(i as int).push(points@[i as int]));
        }
        i += 1;
    }
    proof {
        assert(points@.take(points@.len() as int) =~= points@);
    }
    r
}

/// One collision relaxation pass over the whole store, equal to
/// `spec_collide_pass` of the store at entry.
pub fn resolve_collisions(
    points: &mut Vec<Point>,
    left: i64,
    bottom: i64,
    width: i64,
    height: i64,
    bucket_capacity: usize,
    max_radius: i64,
)
    requires
        rect_of(left, bottom, width, height).valid(),
        bucket_capacity >= 1,
        radius_ok(max_radius as int),
        all_ok(old(points)@),
    ensures
        final(points)@ == spec_collide_pass(
            old(points)@,
            rect_of(left, bottom, width, height),
            bucket_capacity as int,
            max_radius,
        ),
        all_ok(final(points)@),
{
    let ghost rect = rect_of(left, bottom, width, height);
    let snapshot = copy_points(points);
    let tree = QuadTree::from_points(snapshot, left, bottom, width, height, bucket_capacity);
    let mut i: usize = 0;
    while i < points.len()
        invariant
            0 <= i <= points@.len(),
            points@.len() == old(points)@.len(),
            rect == rect_of(left, bottom, width, height),
            tree@ == spec_from_points(old(points)@, rect, bucket_capacity as int),
            tree@.wf(),
            radius_ok(max_radius as int),
            all_ok(old(points)@),
            forall|k: int| i <= k < points@.len() ==> points@[k] == old(points)@[k],
            forall|k: int|
                0 <= k < i ==> points@[k] == spec_collide_one(
                    old(points)@[k],
                    tree@,
                    max_radius,
                ),
            all_ok(points@),
        decreases points@.len() - i,
    {
        let p = points[i];
        let r = p.radius + max_radius;
        let qs = tree.query_radius(p.position.x, p.position.y, r);
        proof {
            assert forall|k: int| 0 <= k < qs@.len() implies particle_ok(#[trigger] qs@[k]) by {
                assert(qs@.contains(qs@[k]));
                lemma_query_in_points(
                    tree@.root,
                    p.position.x as int,
                    p.position.y as int,
                    r as int,
                    tree@.rect,
                    qs@[k],
                );
                lemma_build_points_subset(old(points)@, rect, bucket_capacity as int, qs@[k]);
                let j = choose|j: int|
                    0 <= j < old(points)@.len() && old(points)@[j] == qs@[k];
                assert(particle_ok(old(points)@[j]));
            }
        }
        let mut pi = p;
        collide_particle(&mut pi, &qs);
        points.set(i, pi);
        i += 1;
    }
    proof {
        assert(points@ =~= spec_collide_pass(
            old(points)@,
            rect,
            bucket_capacity as int,
            max_radius,
        ));
    }
}

/// The wall pass over the whole store.
pub fn resolve_wall_collisions(points: &mut Vec<Point>, gravity: i64, left: i64, right: i64, bottom: i64)
    requires
        all_ok(old(points)@),
        accel_ok(gravity as int),
        bound_ok(left as int),
        bound_ok(right as int),
        bound_ok(bottom as int),
    ensures
        final(points)@ == spec_wall_pass(
            old(points)@,
            gravity,
            left as int,
            right as int,
            bottom as int,
        ),
        all_ok(final(points)@),
{
    let mut i: usize = 0;
    while i < points.len()
        invariant
            0 <= i <= points@.len(),
            points@.len() == old(points)@.len(),
            accel_ok(gravity as int),
            bound_ok(left as int),
            bound_ok(right as int),
            bound_ok(bottom as int),
            all_ok(old(points)@),
            forall|k: int| i <= k < points@.len() ==> points@[k] == old(points)@[k],
            forall|k: int|
                0 <= k < i ==> points@[k] == spec_wall(
                    old(points)@[k],
                    gravity,
                    left as int,
                    right as int,
                    bottom as int,
                ),
            all_ok(points@),
        decreases points@.len() - i,
    {
        let mut pi = points[i];
        wall_resolve(&mut pi, gravity, left, right, bottom);
        points.set(i, pi);
        i += 1;
    }
    proof {
        assert(points@ =~= spec_wall_pass(
            old(points)@,
            gravity,
            left as int,
            right as int,
            bottom as int,
        ));
    }
}

/// The pointer pass over the whole store.
pub fn resolve_mouse_collisions(points: &mut Vec<Point>, mx: i64, my: i64, pointer_radius: i64)
    requires
        all_ok(old(points)@),
        coord_ok(mx as int),
        coord_ok(my as int),
        radius_ok(pointer_radius as int),
    ensures
        final(points)@ == spec_pointer_pass(old(points)@, mx, my, pointer_radius),
        all_ok(final(points)@),
{
    let mut i: usize = 0;
    while i < points.len()
        invariant
            0 <= i <= points@.len(),
            points@.len() == old(points)@.len(),
            coord_ok(mx as int),
            coord_ok(my as int),
            radius_ok(pointer_radius as int),
            all_ok(old(points)@),
            forall|k: int| i <= k < points@.len() ==> points@[k] == old(points)@[k],
            forall|k: int|
                0 <= k < i ==> points@[k] == spec_pointer(old(points)@[k], mx, my, pointer_radius),
            all_ok(points@),
        decreases points@.len() - i,
    {
        let mut pi = points[i];
        pointer_resolve(&mut pi, mx, my, pointer_radius);
        points.set(i, pi);
        i += 1;
    }
    proof {
        assert(points@ =~= spec_pointer_pass(old(points)@, mx, my, pointer_radius));
    }
}

/// The integration pass over the whole store.
pub fn integrate_pass(points: &mut Vec<Point>, den: i64)
    requires
        all_ok(old(points)@),
        1 <= den <= 32768,
    ensures
        final(points)@ == spec_integrate_pass(old(points)@, den),
        all_ok(final(points)@),
{
    let mut i: usize = 0;
    while i < points.len()
        invariant
            0 <= i <= points@.len(),
            points@.len() == old(points)@.len(),
            1 <= den <= 32768,
            all_ok(old(points)@),
            forall|k: int| i <= k < points@.len() ==> points@[k] == old(points)@[k],
            forall|k: int| 0 <= k < i ==> points@[k] == spec_integrate(old(points)@[k], den),
            all_ok(points@),
        decreases points@.len() - i,
    {
        let mut pi = points[i];
        integrate_particle(&mut pi, den);
        points.set(i, pi);
        i += 1;
    }
    proof {
        assert(points@ =~= spec_integrate_pass(old(points)@, den));
    }
}

/// One sub-step: rebuild-and-collide, walls, pointer, rebuild-and-collide
/// again, then integrate.
pub open spec fn spec_substep(points: Seq<Point>, cfg: SimConfig, mx: i64, my: i64) -> Seq<
    Point,
> {
    let rect = cfg.bounds();
    let cap = cfg.bucket_capacity as int;
    let a = spec_collide_pass(points, rect, cap, cfg.max_radius);
    let b = spec_wall_pass(a, cfg.gravity, rect.x, rect.x + rect.w, rect.y);
    let c = spec_pointer_pass(b, mx, my, cfg.pointer_radius);
    let d = spec_collide_pass(c, rect, cap, cfg.max_radius);
    spec_integrate_pass(d, cfg.dt_denominator)
}

/// `n` sub-steps in sequence.
pub open spec fn spec_substeps(
    points: Seq<Point>,
    cfg: SimConfig,
    mx: i64,
    my: i64,
    n: nat,
) -> Seq<Point>
    decreases n,
{
    if n == 0 {
        points
    } else {
        spec_substeps(spec_substep(points, cfg, mx, my), cfg, mx, my, (n - 1) as nat)
    }
}

/// A sub-step moves particles but never changes their identity: the id at
/// each index is unchanged.
pub proof fn lemma_substep_preserves_ids(points: Seq<Point>, cfg: SimConfig, mx: i64, my: i64)
    ensures
        spec_substep(points, cfg, mx, my).len() == points.len(),
        forall|i: int|
            0 <= i < points.len() ==> (#[trigger] spec_substep(points, cfg, mx, my)[i]).id
                == points[i].id,
{
    let rect = cfg.bounds();
    let cap = cfg.bucket_capacity as int;
    let a = spec_collide_pass(points, rect, cap, cfg.max_radius);
    let b = spec_wall_pass(a, cfg.gravity, rect.x, rect.x + rect.w, rect.y);
    let c = spec_pointer_pass(b, mx, my, cfg.pointer_radius);
    let d = spec_collide_pass(c, rect, cap, cfg.max_radius);
    let e = spec_integrate_pass(d, cfg.dt_denominator);
    assert forall|i: int| 0 <= i < points.len() implies (#[trigger] spec_substep(
        points,
        cfg,
        mx,
        my,
    )[i]).id == points[i].id by {
        assert(a[i].id == points[i].id);
        assert(b[i].id == a[i].id);
        assert(c[i].id == b[i].id);
        assert(d[i].id == c[i].id);
        assert(e[i].id == d[i].id);
    }
}

/// Any number of sub-steps keeps every particle's id.
pub proof fn lemma_substeps_preserve_ids(
    points: Seq<Point>,
    cfg: SimConfig,
    mx: i64,
    my: i64,
    n: nat,
)
    ensures
        spec_substeps(points, cfg, mx, my, n).len() == points.len(),
        forall|i: int|
            0 <= i < points.len() ==> (#[trigger] spec_substeps(points, cfg, mx, my, n)[i]).id
                == points[i].id,
    decreases n,
{
    if n > 0 {
        lemma_substep_preserves_ids(points, cfg, mx, my);
        lemma_substeps_preserve_ids(spec_substep(points, cfg, mx, my), cfg, mx, my, (n - 1) as nat);
    }
}

/// One animation frame: when the simulation is running and the store is not
/// empty, run the configured number of sub-steps; otherwise leave the store
/// untouched.
pub fn step_simulation(points: &mut Vec<Point>, cfg: &SimConfig, mx: i64, my: i64)
    requires
        cfg.valid(),
        all_ok(old(points)@),
        coord_ok(mx as int),
        coord_ok(my as int),
    ensures
        final(points)@ == (if cfg.running && old(points)@.len() > 0 {
            spec_substeps(old(points)@, *cfg, mx, my, cfg.sub_step_count as nat)
        } else {
            old(points)@
        }),
        all_ok(final(points)@),
{
    if !cfg.running || points.len() == 0 {
        return ;
    }
    let mut s: usize = 0;
    while s < cfg.sub_step_count
        invariant
            0 <= s <= cfg.sub_step_count,
            cfg.valid(),
            coord_ok(mx as int),
            coord_ok(my as int),
            all_ok(points@),
            spec_substeps(points@, *cfg, mx, my, (cfg.sub_step_count - s) as nat) == spec_substeps(
                old(points)@,
                *cfg,
                mx,
                my,
                cfg.sub_step_count as nat,
            ),
        decreases cfg.sub_step_count - s,
    {
        let ghost before = points@;
        resolve_collisions(
            points,
            cfg.left,
            cfg.bottom,
            cfg.width,
            cfg.height,
            cfg.bucket_capacity,
            cfg.max_radius,
        );
        let right = cfg.left + cfg.width;
        resolve_wall_collisions(points, cfg.gravity, cfg.left, right, cfg.bottom);
        resolve_mouse_collisions(points, mx, my, cfg.pointer_radius);
        resolve_collisions(
            points,
            cfg.left,
            cfg.bottom,
            cfg.width,
            cfg.height,
            cfg.bucket_capacity,
            cfg.max_radius,
        );
        integrate_pass(points, cfg.dt_denominator);
        proof {
            assert(points@ == spec_substep(before, *cfg, mx, my));
        }
        s += 1;
    }
}

} // verus!
