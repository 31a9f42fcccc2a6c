//! A grid simulation of a nearest-source distance field and of bounded charge
//! that travels along it toward the sources.

pub mod grid;
pub mod model;
pub mod field;
pub mod laws;

pub use field::Field;
pub use grid::{Coord, coord_in, neighbor};
pub use model::{Cell, MAX_CHARGE, ABSORB_RATE, UNREACHED, DEFAULT_COST};
