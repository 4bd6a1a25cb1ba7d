//! Space-filling curves: bijections between 2-D coordinates and scalar ids.
pub mod hilbert;
pub mod spiral;
pub mod zorder;

pub use hilbert::{hilbert_to_xy, hilbert_to_zxy, xy_to_hilbert, zxy_to_hilbert};
pub use spiral::{spiral_to_xy, xy_to_spiral};
pub use zorder::{xy_to_zorder, zorder_to_xy};
