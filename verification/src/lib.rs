//! Topology-preserving reduction of simple polygon boundaries on an integer grid.
//!
//! The boundary ring is triangulated once (constrained Delaunay, supplied as a plain
//! half-edge arena, see [`mesh::Mesh`]); mutual visibility through that triangulation
//! then drives a farthest-point reduction, and the convex hull of the triangulation is
//! eaten inwards to obtain a characteristic shape.
pub mod geometry;
pub mod index_set;
pub mod melkman;
pub mod mesh;
pub mod ring_order;
pub mod segments;
pub mod simplify_charshape;
pub mod simplify_rdp;
pub mod validation;
pub mod visibility;
pub mod winding;
