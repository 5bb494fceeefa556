//! Flow-field pathfinding over a map that is cut into square sectors.

pub mod flowfields;
