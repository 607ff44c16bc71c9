//! A particle simulation core: a region quadtree over particle positions,
//! used as a broad-phase collision filter, and a fixed-timestep solver that
//! integrates particle positions and resolves particle, wall and pointer
//! collisions. All coordinates are fixed-point integers: the caller picks a
//! scale (sub-units per world unit) and converts at the boundary.

pub mod nums;
pub mod particle;
pub mod quadtree;
pub mod passes;
pub mod solver;
pub mod store;
