//! An exact-arithmetic geometry kernel on fixed-point 3D points and vectors.
//!
//! Every coordinate is an integer count of millionths of a unit of length,
//! and every unit direction has length `SCALE`. Predicates are decided
//! without rounding. Only results that are themselves points or vectors are
//! rounded: every quotient to the nearest integer, and a length, before it
//! divides, to thirteen digits or more. A component that has no value, as the
//! direction of the zero vector has none, is marked `UNDEFINED`.
//!
//! The modules follow the kinds of question the kernel answers: `primitives`
//! for normals and approximate equality, `classify` for a point against a
//! triangle, a plane or a segment, `intersect` for segments, planes and quads,
//! `base_plane`, `perpendicular`, `quad` and `displace` for the quad of a
//! deformation brush, and `select` for the choice of an anchor vertex. They
//! rest on `vector`, the points and vectors with their algebra, and `arith`,
//! the integer arithmetic below it.

pub mod arith;
pub mod base_plane;
pub mod classify;
pub mod displace;
pub mod intersect;
pub mod perpendicular;
pub mod primitives;
pub mod quad;
pub mod select;
pub mod vector;

pub use base_plane::pick_base_plane_norm;
pub use classify::{angle360, is_point_on_segment, point_in_triangle, point_side_on_plane,
    PointSide};
pub use displace::calculate_deform_position;
pub use intersect::{intersect_of_segment_and_plane, is_segment_and_quad_intersect,
    is_two_quads_intersect, SegmentPlaneIntersect, SMALL_NUM};
pub use perpendicular::world_perp;
pub use primitives::{almost_eq, is_valid_norm, norm};
pub use quad::make_quad;
pub use select::pick_most_not_obvious_vertex;
pub use vector::{Point3, Vector3, LIMIT, SCALE, UNDEFINED};
