//! Topology, image and bookkeeping logic of a STEP triangulation and
//! thumbnail pipeline, verified with Verus.

pub mod mesh;
pub mod model;
pub mod stats;
pub mod error;
pub mod contour;
pub mod maps;
pub mod transform;
pub mod image;
pub mod mouse;
pub mod batch;
pub mod faces;
pub mod traverse;
pub mod encode;
pub mod cycles;
pub mod geometry;
pub mod files;
