//! A half-edge mesh connectivity engine: generational arenas, safe traversal
//! queries and topological edit operations with verified contracts.
//!
//! Vertex positions are an opaque payload `P`: every operation here is about
//! connectivity, and callers supply any new positions.

pub mod arena;
pub mod mesh;
pub mod traverse;
pub mod edit;
pub mod compound;
pub mod construct;
pub mod invariants;
pub mod small;

pub use compound::{
    bevel_edges_connectivity, bevel_pulls, chamfer_vertex, extrude_face_connectivity, extrude_faces_connectivity,
    silhouette, split_edge,
};
pub use construct::{add_face, from_polygons, PairMap};
pub use edit::{collapse_edge, cut_face, dissolve_edge, dissolve_vertex, divide_edge, duplicate_edge, split_vertex};
pub use mesh::{Face, FaceId, HalfEdge, HalfEdgeId, HalfEdgeMesh, MeshError, Vertex, VertexId};
pub use small::{FaceList, VertexList};
