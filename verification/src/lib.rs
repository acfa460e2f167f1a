//! Hierarchical block addressing for a camera in an endlessly subdivided plane.

pub mod block_address;
pub mod identity;
pub mod laws;
pub mod radix;
pub mod view_position;
