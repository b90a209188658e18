//! Delaunay triangulation of a set of points in the plane, built by sweeping
//! the points outward from a seed triangle.
//!
//! The crate holds the combinatorial side of the construction: the half-edge
//! mesh, the ring of points on the advancing hull, the flips that repair the
//! mesh after each insertion, and the choice of the seed. Everything numeric
//! about the points (distances, the turn test, the circle test) is asked of
//! the caller through closures, and the mesh and the hull are proved to stay
//! sound whatever those closures answer: twins stay mutual, the hull stays
//! the boundary of the mesh, and every point is a corner of the mesh unless
//! a test said to leave it out. Where the turn test and the circle test are
//! exact, no triangle is ever clockwise.
//!
//! - [`mesh`]: the two arrays of the mesh, appending a triangle, flipping
//!   an edge.
//! - [`hull`]: the ring of hull points and its angular hash.
//! - [`legalize`]: the flips after an insertion.
//! - [`sweep`]: the insertion of one point.
//! - [`seed`]: the choice of the seed triangle.
//! - [`order`]: the order of insertion.
//! - [`construct`]: the construction as a whole.
//! - [`plane`]: exact geometry, as a yardstick for the tests.
//! - [`laws`]: what holds of every triangulation that is returned.
//! - [`index`]: ids and positions.

pub mod index;
pub mod mesh;
pub mod hull;
pub mod legalize;
pub mod sweep;
pub mod seed;
pub mod order;
pub mod construct;
pub mod laws;
pub mod plane;

pub use construct::{triangulate, MAX_POINTS};
pub use hull::Hull;
pub use index::EMPTY;
pub use mesh::Triangulation;
pub use seed::{find_closest_point, find_seed_triangle, FAR};
