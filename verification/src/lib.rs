//! Triangulation of polygons with holes by ear clipping.
//!
//! A polygon is an outer ring and any number of hole rings. The engine links the
//! vertices of each ring into a cycle, bridges every hole into the outer cycle,
//! and then cuts ears off the one remaining cycle until nothing is left of it.
//! Each triangle is reported as three indices into the flattened input.
//!
//! The engine is generic over a [`Kernel`], which does the arithmetic on
//! coordinates. [`Grid`] is the exact kernel for integer coordinates, and
//! [`earcut`] triangulates with it.

pub mod area;
pub mod clip;
pub mod cure;
pub mod curve;
pub mod ear;
pub mod faithful;
pub mod filter;
pub mod geometry;
pub mod grid;
pub mod holes;
pub mod kernel;
pub mod polygon;
pub mod ring;
pub mod sort;
pub mod split;
pub mod triangle;
pub mod zorder;

pub use clip::{earcut_linked, split_earcut, Pass};
pub use cure::cure_local_intersections;
pub use curve::index_curve;
pub use sort::sort_linked;
pub use ear::is_ear;
pub use filter::filter_points;
pub use geometry::{
    area, equals, intersects, intersects_polygon, is_valid_diagonal, locally_inside, middle_inside,
    point_in_triangle,
};
pub use grid::{earcut, Grid, Point};
pub use holes::{eliminate_hole, eliminate_holes, find_hole_bridge, get_leftmost};
pub use kernel::{HashParameters, Kernel, Sign};
pub use polygon::{earcut_with, linked_list, sort_holes};
pub use ring::{Node, Rings};
