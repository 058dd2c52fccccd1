pub mod midpoint;
pub mod tree;

pub use midpoint::Midpoint;
pub use tree::{Boundary, Point, QuadTree};
