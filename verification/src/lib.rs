//! Field of view on a grid map by symmetric shadowcasting.
//!
//! Given a vantage cell in a flat row-major occupancy map and a radius, the
//! library computes the set of cells visible from the vantage point, walking
//! rows outward through four cardinal quadrants while tracking exact rational
//! slope wedges. Blocking cells cast shadows behind themselves without
//! leaking light around corners or occluding cells that a symmetric viewer
//! could see.

pub mod fov;
pub mod laws;
pub mod model;
pub mod rational;

pub use fov::get_visible_idxs;
pub use model::Cardinal;
