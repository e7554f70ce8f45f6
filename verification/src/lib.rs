//! Construction of a packed Hilbert R-tree: bounding boxes over integer
//! coordinates, Hilbert-curve ordering, level planning and the flattened
//! bottom-up tree build.

pub mod bbox;
pub mod curve;
pub mod geometry;
pub mod hilbert;
pub mod index;
pub mod line_reader;
pub mod sort;
