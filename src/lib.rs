//! A tower-defense core on a hexagonal grid: the cell map, shortest paths between
//! cells, walkers that follow a path, attack timers with their projectiles, and
//! the two-pick route selection.

pub mod hex;
pub mod map;
pub mod path;
pub mod walker;
pub mod combat;
pub mod route;
pub mod world;
