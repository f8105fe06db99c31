//! Turns the alpha channel of a raster image into a triangle mesh for hit-testing.
//!
//! The pipeline has three stages, each a module of its own: the opacity grid and
//! the contours traced from it ([`image`]), contour simplification ([`rdp`]),
//! and the bookkeeping around an ear-clipping triangulator ([`triangulation`]).
//! The point and triangle primitives live in [`geometry`].

pub mod error;
pub mod geometry;
pub mod image;
pub mod rdp;
pub mod triangulation;
