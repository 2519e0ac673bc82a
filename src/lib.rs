//! Online clustering of a point stream into weighted balls: the nearest-two
//! query and the graph of balls that the update works on.
pub mod neighborhood;
pub mod graph;
pub mod model;
pub mod neighbors;
