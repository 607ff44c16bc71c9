//! The step solver's per-particle physics: the single-sided half-penetration
//! collision push, the wall pass, the pointer pass, and Verlet integration.
//! Every function is an exact function of its inputs, stated by a spec
//! function; the pass loops in `passes` map them over the particle store.

use vstd::prelude::*;
use crate::particle::{particle_ok, Point, Vec2};
use crate::nums::{
    accel_ok, add_clamped, bound_ok, clamp_coord, clamp_fixed, coord_ok, div_trunc, div_z,
    half_trunc, isqrt, lemma_sqrt_floor_props, radius_ok, sqrt_floor,
};

verus! {

/// The half-penetration push moving a disk at `(px, py)` with radius `pr`
/// away from a disk at `(qx, qy)` with radius `qr`. Zero when the disks do
/// not overlap. When the centers coincide the separating axis is undefined
/// and the fallback axis is the unit horizontal vector, giving `(rsum / 2, 0)`.
pub open spec fn spec_push(px: int, py: int, qx: int, qy: int, pr: int, qr: int) -> (int, int) {
    let dx = px - qx;
    let dy = py - qy;
    let d2 = dx * dx + dy * dy;
    let rsum = pr + qr;
    if d2 <= rsum * rsum {
        let dist = sqrt_floor(d2);
        if dist == 0 {
            (div_z(rsum, 2), 0)
        } else {
            let delta = rsum - dist;
            (div_z(dx * delta, 2 * dist), div_z(dy * delta, 2 * dist))
        }
    } else {
        (0, 0)
    }
}

/// Computes `spec_push` exactly, in bounded arithmetic.
pub fn push_vector(px: i64, py: i64, qx: i64, qy: i64, pr: i64, qr: i64) -> (r: (i64, i64))
    requires
        coord_ok(px as int),
        coord_ok(py as int),
        coord_ok(qx as int),
        coord_ok(qy as int),
        radius_ok(pr as int),
        radius_ok(qr as int),
    ensures
        r.0 as int == spec_push(px as int, py as int, qx as int, qy as int, pr as int, qr as int).0,
        r.1 as int == spec_push(px as int, py as int, qx as int, qy as int, pr as int, qr as int).1,
        -0x200000000000000 <= r.0 <= 0x200000000000000,
        -0x200000000000000 <= r.1 <= 0x200000000000000,
{
    let dx: i64 = px - qx;
    let dy: i64 = py - qy;
    let adx: u64 = if dx >= 0 {
        dx as u64
    } else {
        (-dx) as u64
    };
    let ady: u64 = if dy >= 0 {
        dy as u64
    } else {
        (-dy) as u64
    };
    proof {
        assert((adx as int) * (adx as int) == (dx as int) * (dx as int)
            && (adx as int) * (adx as int) <= 0x4000000000000000) by (nonlinear_arith)
            requires
                adx == (if dx as int >= 0 { dx as int } else { -(dx as int) }),
                0 <= adx <= 0x80000000,
        ;
        assert((ady as int) * (ady as int) == (dy as int) * (dy as int)
            && (ady as int) * (ady as int) <= 0x4000000000000000) by (nonlinear_arith)
            requires
                ady == (if dy as int >= 0 { dy as int } else { -(dy as int) }),
                0 <= ady <= 0x80000000,
        ;
    }
    let d2: u64 = adx * adx + ady * ady;
    let rsum: i64 = pr + qr;
    proof {
        assert(0 <= (rsum as int) * (rsum as int) <= 0x40000000000) by (nonlinear_arith)
            requires
                0 < rsum <= 0x200000,
        ;
    }
    let rsum2: i64 = rsum * rsum;
    if d2 <= rsum2 as u64 {
        let dist_u: u64 = isqrt(d2);
        proof {
            lemma_sqrt_floor_props(d2 as int);
            assert(dist_u <= rsum) by (nonlinear_arith)
                requires
                    0 <= dist_u,
                    0 < rsum,
                    (dist_u as int) * (dist_u as int) <= (rsum as int) * (rsum as int),
            ;
        }
        if dist_u == 0 {
            (div_trunc(rsum, 2), 0)
        } else {
            let dist: i64 = dist_u as i64;
            let delta: i64 = rsum - dist;
            proof {
                assert(-0x200000000000000 <= (dx as int) * (delta as int) <= 0x200000000000000)
                    by (nonlinear_arith)
                    requires
                        -0x80000000 <= dx <= 0x80000000,
                        0 <= delta <= 0x200000,
                ;
                assert(-0x200000000000000 <= (dy as int) * (delta as int) <= 0x200000000000000)
                    by (nonlinear_arith)
                    requires
                        -0x80000000 <= dy <= 0x80000000,
                        0 <= delta <= 0x200000,
                ;
            }
            let nx: i64 = dx * delta;
            let ny: i64 = dy * delta;
            let den: i64 = 2 * dist;
            (div_trunc(nx, den), div_trunc(ny, den))
        }
    } else {
        (0, 0)
    }
}

/// One neighbor's contribution folded onto a running position: the push is
/// computed from the particle's start-of-pass snapshot, the running position
/// only accumulates it (saturating at the coordinate range).
pub open spec fn apply_push(pos: Vec2, orig: Point, q: Point) -> Vec2 {
    if q.id != orig.id {
        let o = spec_push(
            orig.position.x as int,
            orig.position.y as int,
            q.position.x as int,
            q.position.y as int,
            orig.radius as int,
            q.radius as int,
        );
        Vec2 { x: clamp_coord(pos.x + o.0) as i64, y: clamp_coord(pos.y + o.1) as i64 }
    } else {
        pos
    }
}

/// The position of a particle after resolving against every queried neighbor
/// in order, each against the same start-of-pass snapshot `orig`.
pub open spec fn spec_collide_fold(pos: Vec2, orig: Point, qs: Seq<Point>) -> Vec2
    decreases qs.len(),
{
    if qs.len() == 0 {
        pos
    } else {
        spec_collide_fold(apply_push(pos, orig, qs[0]), orig, qs.drop_first())
    }
}

/// Resolve one particle against a list of neighbor snapshots: for every
/// neighbor with a different id whose disk overlaps the particle's
/// start-of-pass disk, move the particle by half the penetration along the
/// separating axis. Only this particle moves; the neighbors are read only.
pub fn collide_particle(p: &mut Point, neighbors: &Vec<Point>)
    requires
        particle_ok(*old(p)),
        forall|i: int| 0 <= i < neighbors@.len() ==> particle_ok(#[trigger] neighbors@[i]),
    ensures
        *final(p) == (Point {
            position: spec_collide_fold(old(p).position, *old(p), neighbors@),
            ..*old(p)
        }),
        particle_ok(*final(p)),
{
    let orig: Point = *p;
    proof {
        assert(neighbors@.skip(0) =~= neighbors@);
    }
    let mut i: usize = 0;
    while i < neighbors.len()
        invariant
            0 <= i <= neighbors@.len(),
            orig == *old(p),
            particle_ok(orig),
            forall|k: int| 0 <= k < neighbors@.len() ==> particle_ok(#[trigger] neighbors@[k]),
            *p == (Point { position: p.position, ..orig }),
            coord_ok(p.position.x as int),
            coord_ok(p.position.y as int),
            spec_collide_fold(p.position, orig, neighbors@.skip(i as int)) == spec_collide_fold(
                orig.position,
                orig,
                neighbors@,
            ),
        decreases neighbors@.len() - i,
    {
        let ghost before = p.position;
        let q = neighbors[i];
        if q.id != orig.id {
            let o = push_vector(
                orig.position.x,
                orig.position.y,
                q.position.x,
                q.position.y,
                orig.radius,
                q.radius,
            );
            let nx = add_clamped(p.position.x, o.0);
            let ny = add_clamped(p.position.y, o.1);
            p.position = Vec2 { x: nx, y: ny };
        }
        proof {
            assert(neighbors@.skip(i as int)[0] == neighbors@[i as int]);
            assert(neighbors@.skip(i as int).drop_first() =~= neighbors@.skip(i + 1));
            assert(p.position == apply_push(before, orig, neighbors@[i as int]));
        }
        i += 1;
    }
    proof {
        assert(neighbors@.skip(neighbors@.len() as int) =~= Seq::<Point>::empty());
    }
}

/// The wall pass on one particle: acceleration is reset to `(0, gravity)`;
/// a particle whose bottom edge is below the floor is clamped to floor
/// contact with its vertical acceleration zeroed and its implicit vertical
/// velocity halved; a particle whose side edge crosses the left or right
/// boundary is clamped to that boundary with its implicit horizontal
/// velocity halved.
pub open spec fn spec_wall(p: Point, gravity: i64, left: int, right: int, bottom: int) -> Point {
    let below = p.position.y - p.radius < bottom;
    let ay: i64 = if below {
        0i64
    } else {
        gravity
    };
    let ydiff = p.position.y - p.prev_position.y;
    let ny: i64 = if below {
        clamp_coord(bottom + p.radius) as i64
    } else {
        p.position.y
    };
    let nqy: i64 = if below {
        clamp_coord(ny + div_z(ydiff, 2)) as i64
    } else {
        p.prev_position.y
    };
    let crosses = p.position.x - p.radius < left || p.position.x + p.radius > right;
    let xdiff = p.position.x - p.prev_position.x;
    let nx: i64 = if p.position.x - p.radius < left {
        clamp_coord(left + p.radius) as i64
    } else if p.position.x + p.radius > right {
        clamp_coord(right - p.radius) as i64
    } else {
        p.position.x
    };
    let nqx: i64 = if crosses {
        clamp_coord(nx + div_z(xdiff, 2)) as i64
    } else {
        p.prev_position.x
    };
    Point {
        position: Vec2 { x: nx, y: ny },
        prev_position: Vec2 { x: nqx, y: nqy },
        acceleration: Vec2 { x: 0i64, y: ay },
        ..p
    }
}

/// Applies `spec_wall` to one particle.
pub fn wall_resolve(p: &mut Point, gravity: i64, left: i64, right: i64, bottom: i64)
    requires
        particle_ok(*old(p)),
        accel_ok(gravity as int),
        bound_ok(left as int),
        bound_ok(right as int),
        bound_ok(bottom as int),
    ensures
        *final(p) == spec_wall(*old(p), gravity, left as int, right as int, bottom as int),
        particle_ok(*final(p)),
{
    p.acceleration = Vec2 { x: 0, y: gravity };
    if p.position.y - p.radius < bottom {
        let ydiff = p.position.y - p.prev_position.y;
        p.acceleration.y = 0;
        p.position.y = clamp_fixed(bottom + p.radius);
        p.prev_position.y = add_clamped(p.position.y, half_trunc(ydiff));
    }
    if p.position.x - p.radius < left || p.position.x + p.radius > right {
        let xdiff = p.position.x - p.prev_position.x;
        if p.position.x - p.radius < left {
            p.position.x = clamp_fixed(left + p.radius);
        } else {
            p.position.x = clamp_fixed(right - p.radius);
        }
        p.prev_position.x = add_clamped(p.position.x, half_trunc(xdiff));
    }
}

/// The pointer pass on one particle: the pointer is an immovable disk at
/// `(mx, my)` of radius `pointer_radius`; an overlapping particle receives
/// the same single-sided half-penetration push as in the collision pass.
pub open spec fn spec_pointer(p: Point, mx: i64, my: i64, pointer_radius: i64) -> Point {
    let o = spec_push(
        p.position.x as int,
        p.position.y as int,
        mx as int,
        my as int,
        p.radius as int,
        pointer_radius as int,
    );
    Point {
        position: Vec2 {
            x: clamp_coord(p.position.x + o.0) as i64,
            y: clamp_coord(p.position.y + o.1) as i64,
        },
        ..p
    }
}

/// Applies `spec_pointer` to one particle.
pub fn pointer_resolve(p: &mut Point, mx: i64, my: i64, pointer_radius: i64)
    requires
        particle_ok(*old(p)),
        coord_ok(mx as int),
        coord_ok(my as int),
        radius_ok(pointer_radius as int),
    ensures
        *final(p) == spec_pointer(*old(p), mx, my, pointer_radius),
        particle_ok(*final(p)),
{
    let o = push_vector(p.position.x, p.position.y, mx, my, p.radius, pointer_radius);
    let nx = add_clamped(p.position.x, o.0);
    let ny = add_clamped(p.position.y, o.1);
    p.position = Vec2 { x: nx, y: ny };
}

/// Verlet integration of one particle with the fixed nominal step
/// `dt = 1 / den`: the implicit velocity `position - prevPosition` carries
/// over, the acceleration is scaled by `dt * dt` and added, `prevPosition`
/// becomes the old position, and the acceleration is reset to zero.
pub open spec fn spec_integrate(p: Point, den: i64) -> Point {
    let dd = (den as int) * (den as int);
    let ax = div_z(p.acceleration.x as int, dd);
    let ay = div_z(p.acceleration.y as int, dd);
    let nx = clamp_coord(p.position.x + (p.position.x - p.prev_position.x) + ax);
    let ny = clamp_coord(p.position.y + (p.position.y - p.prev_position.y) + ay);
    Point {
        position: Vec2 { x: nx as i64, y: ny as i64 },
        prev_position: p.position,
        acceleration: Vec2 { x: 0i64, y: 0i64 },
        ..p
    }
}

/// Applies `spec_integrate` to one particle.
pub fn integrate_particle(p: &mut Point, den: i64)
    requires
        particle_ok(*old(p)),
        1 <= den <= 32768,
    ensures
        *final(p) == spec_integrate(*old(p), den),
        particle_ok(*final(p)),
{
    proof {
        assert(1 <= (den as int) * (den as int) <= 0x40000000) by (nonlinear_arith)
            requires
                1 <= den <= 32768,
        ;
    }
    let dd: i64 = den * den;
    let ax = div_trunc(p.acceleration.x, dd);
    let ay = div_trunc(p.acceleration.y, dd);
    let sx: i64 = p.position.x + (p.position.x - p.prev_position.x) + ax;
    let sy: i64 = p.position.y + (p.position.y - p.prev_position.y) + ay;
    let nx = clamp_fixed(sx);
    let ny = clamp_fixed(sy);
    p.prev_position = p.position;
    p.position = Vec2 { x: nx, y: ny };
    p.acceleration = Vec2 { x: 0, y: 0 };
}

/// Wall clamp exactness: a particle penetrating the floor has, after the
/// wall pass, its vertical coordinate exactly at `bottom + radius`; one
/// penetrating the left or right boundary has its horizontal coordinate
/// exactly at `left + radius` or `right - radius` (the left clamp takes
/// precedence when both sides are crossed).
pub proof fn lemma_wall_clamp_exact(p: Point, gravity: i64, left: int, right: int, bottom: int)
    requires
        particle_ok(p),
        bound_ok(left),
        bound_ok(right),
        bound_ok(bottom),
    ensures
        p.position.y - p.radius < bottom ==> spec_wall(p, gravity, left, right, bottom).position.y
            == bottom + p.radius,
        p.position.x - p.radius < left ==> spec_wall(p, gravity, left, right, bottom).position.x
            == left + p.radius,
        p.position.x - p.radius >= left && p.position.x + p.radius > right ==> spec_wall(
            p,
            gravity,
            left,
            right,
            bottom,
        ).position.x == right - p.radius,
{
}

/// A stationary particle stays put: with `position == prevPosition` and zero
/// acceleration, one integration step leaves the position unchanged.
pub proof fn lemma_integrate_stationary(p: Point, den: i64)
    requires
        particle_ok(p),
        p.position == p.prev_position,
        p.acceleration == (Vec2 { x: 0i64, y: 0i64 }),
        1 <= den,
    ensures
        spec_integrate(p, den).position == p.position,
{
    assert((den as int) * (den as int) >= 1) by (nonlinear_arith)
        requires
            1 <= den,
    ;
}

} // verus!
