//! Frame buffer, tile scheduling and snapshot policy of a tiled path tracer.
pub mod collector;
pub mod image;
pub mod naming;
pub mod tiles;
