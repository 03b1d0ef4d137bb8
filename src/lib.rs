//! Turns 2D contours into triangle meshes through a chain of exact geometric
//! transforms: normalizing polygons, offsetting and outlining them, merging holes,
//! and ear-clipping triangulation.
//!
//! Coordinates are fixed-point integers (see [`point::UNIT`]), so every orientation
//! and crossing predicate is evaluated exactly.
use vstd::prelude::*;

pub mod combine;
pub mod error;
pub mod fill;
pub mod holed_polygon;
pub mod mesh;
pub mod offset;
pub mod point;
pub mod polygon;
pub mod polyline;
pub mod shape;
pub mod sweep;
pub mod thicken;
pub mod triangulate;

pub use combine::{Combine, CombineMesh, CombineMeshes, Complete, Hole, Id, Split};
pub use error::ShapeError;
pub use fill::{FillHoled, FillPolygon, FillPolygons};
pub use holed_polygon::HoledPolygon;
pub use mesh::{Mesh, Vertex};
pub use offset::{Offset, Outline};
pub use point::Point;
pub use polygon::Polygon;
pub use polyline::Polyline;
pub use shape::{Config, Fork, Shape};
pub use thicken::{Forward, Thicken};
