//! Exact integer Delaunay refinement of triangle meshes, and their
//! decomposition into strictly convex polygons.

pub mod point;
pub mod triangle;
pub mod mesh;
pub mod delaunay;
pub mod triangle_set;
pub mod validate;
pub mod refine;
pub mod convex;
pub mod partition;
pub mod triangulation;
pub mod mode;

pub use point::IntPoint;
pub use triangle::{IndexPoint, IntTriangle, NIL_INDEX};
pub use delaunay::{DelaunayError, IntDelaunay};
pub use triangle_set::TriangleSet;
pub use refine::RawIntTriangulation;
pub use convex::{Delaunay, convex_polygons};
pub use triangulation::{Triangulation, triangulation};
pub use mode::{ModeOption, TriangleMessage, on_select_mode};
