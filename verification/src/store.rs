//! The particle store: the authoritative collection of particle state. Ids
//! are assigned sequentially at spawn time (the id is the index in the
//! store), particles are never removed individually, and the only destruction
//! is a bulk clear.

use vstd::prelude::*;
use crate::particle::{Color, Point, Vec2};
use crate::nums::{add_clamped, clamp_coord, coord_ok, radius_ok, RADIUS_LIMIT};
use crate::passes::{all_ok, spec_substeps, step_simulation, SimConfig};

verus! {

/// Relies on rand::Rng::gen_range over the inclusive range `lo..=hi`: the
/// sampled value lies in the range; the call panics only on an empty range,
/// which the precondition rules out.
#[verifier::external_body]
fn random_in_range(lo: i64, hi: i64) -> (r: i64)
    requires
        lo <= hi,
    ensures
        lo <= r <= hi,
{
    rand::Rng::gen_range(&mut rand::thread_rng(), lo..=hi)
}

/// Relies on rand::random: an arbitrary byte, with nothing promised of it.
#[verifier::external_body]
fn random_byte() -> (r: u8) {
    rand::random::<u8>()
}

/// Every particle's id equals its index in the store; ids are therefore
/// unique and strictly increasing in spawn order.
pub open spec fn ids_sequential(points: Seq<Point>) -> bool {
    forall|i: int| 0 <= i < points.len() ==> (#[trigger] points[i].id) as int == i
}

/// The authoritative, mutable collection of particle state.
pub struct ParticleStore {
    points: Vec<Point>,
}

impl View for ParticleStore {
    type V = Seq<Point>;

    closed spec fn view(&self) -> Seq<Point> {
        self.points@
    }
}

impl ParticleStore {
    pub fn new() -> (s: ParticleStore)
        ensures
            s@ == Seq::<Point>::empty(),
    {
        ParticleStore { points: Vec::new() }
    }

    /// Read access to the particles, for rendering and queries.
    pub fn points(&self) -> (r: &Vec<Point>)
        ensures
            r@ == self@,
    {
        &self.points
    }

    pub fn len(&self) -> (n: usize)
        ensures
            n == self@.len(),
    {
        self.points.len()
    }

    /// Spawn a particle at `position`: its id is the next sequential value,
    /// its previous position trails by `spawn_offset` along the x axis (a
    /// small initial implicit velocity), its radius is drawn from
    /// `[min_radius, max_radius]`, its acceleration is zero and its color is
    /// arbitrary.
    pub fn spawn(
        &mut self,
        position: Vec2,
        min_radius: i64,
        max_radius: i64,
        spawn_offset: i64,
    ) -> (id: usize)
        requires
            ids_sequential(old(self)@),
            all_ok(old(self)@),
            coord_ok(position.x as int),
            coord_ok(position.y as int),
            radius_ok(min_radius as int),
            radius_ok(max_radius as int),
            min_radius <= max_radius,
            0 <= spawn_offset <= RADIUS_LIMIT,
            old(self)@.len() < usize::MAX,
        ensures
            id == old(self)@.len(),
            final(self)@.len() == old(self)@.len() + 1,
            forall|i: int| 0 <= i < old(self)@.len() ==> final(self)@[i] == old(self)@[i],
            final(self)@.last().id == id,
            final(self)@.last().position == position,
            final(self)@.last().prev_position == (Vec2 {
                x: clamp_coord(position.x - spawn_offset) as i64,
                y: position.y,
            }),
            final(self)@.last().acceleration == (Vec2 { x: 0i64, y: 0i64 }),
            min_radius <= final(self)@.last().radius <= max_radius,
            ids_sequential(final(self)@),
            all_ok(final(self)@),
    {
        let id = self.points.len();
        let radius = random_in_range(min_radius, max_radius);
        let color = Color { red: random_byte(), green: random_byte(), blue: random_byte() };
        let prev = Vec2 { x: add_clamped(position.x, -spawn_offset), y: position.y };
        let p = Point::new(id, position, prev, Vec2::zero(), radius, color);
        self.points.push(p);
        id
    }

    /// Remove every particle.
    pub fn clear_all(&mut self)
        ensures
            final(self)@ == Seq::<Point>::empty(),
    {
        self.points = Vec::new();
    }

    /// Advance the simulation by one frame (see `passes::step_simulation`).
    pub fn step(&mut self, cfg: &SimConfig, mx: i64, my: i64)
        requires
            cfg.valid(),
            all_ok(old(self)@),
            coord_ok(mx as int),
            coord_ok(my as int),
        ensures
            final(self)@ == (if cfg.running && old(self)@.len() > 0 {
                spec_substeps(old(self)@, *cfg, mx, my, cfg.sub_step_count as nat)
            } else {
                old(self)@
            }),
            all_ok(final(self)@),
            ids_sequential(old(self)@) ==> ids_sequential(final(self)@),
    {
        step_simulation(&mut self.points, cfg, mx, my);
        proof {
            if cfg.running && old(self)@.len() > 0 {
                crate::passes::lemma_substeps_preserve_ids(
                    old(self)@,
                    *cfg,
                    mx,
                    my,
                    cfg.sub_step_count as nat,
                );
            }
        }
    }
}

/// Spawn contract: in a store with sequential ids, earlier particles have
/// strictly smaller ids, so ids are unique and successive spawns yield
/// strictly increasing ids.
pub proof fn lemma_ids_strictly_increasing(points: Seq<Point>, i: int, j: int)
    requires
        ids_sequential(points),
        0 <= i < j < points.len(),
    ensures
        points[i].id < points[j].id,
{
}

} // verus!
