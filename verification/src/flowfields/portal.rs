//! What the sectors keep of the portals between them.

pub mod portals;
