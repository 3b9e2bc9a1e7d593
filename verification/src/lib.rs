pub mod board;
pub mod geometry;
pub mod laws;

pub use board::Board;
pub use board::Player;
pub use board::State;
pub use geometry::Point;
pub use geometry::Vector;
