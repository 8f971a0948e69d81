//! Per-frame simulation core of a small real-time action game: a component
//! store, pairwise intersection detection, a two-phase damage pipeline, a
//! movement integrator, timed and terminal despawning, and a six-phase tick
//! scheduler that runs them in a fixed order.
//!
//! All quantities are integers: positions and extents in world units, time in
//! ticks of an abstract clock, velocities in world units per unit of time.
pub mod components;
pub mod store;
pub mod events;
pub mod intersect;
pub mod damage;
pub mod movement;
pub mod despawn;
pub mod schedule;
