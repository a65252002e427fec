//! Triangle-mesh processing on a half-edge store.
//!
//! The store keeps the connectivity of a closed, oriented, manifold
//! triangle surface and carries a position for every vertex.  Its local
//! rewrites (edge flip, edge split, edge collapse) are proved to keep the
//! surface well formed.  The mesh operations built on top of it decide
//! which rewrites to apply; positions are opaque to this crate and are
//! computed by the caller.
use vstd::prelude::*;

pub mod data_structure;
pub mod mesh_operation;

pub use data_structure::construct::Face;
pub use data_structure::construct::MeshError;
pub use data_structure::half_edge::HalfEdge;
pub use data_structure::model::EdgeRef;
pub use data_structure::model::FaceRef;
pub use data_structure::model::HalfEdgeRef;
pub use data_structure::model::IndexType;
pub use data_structure::model::MeshModel;
pub use data_structure::model::VertexRef;
pub use mesh_operation::denoise::Denoise;
pub use mesh_operation::queue::EdgeCost;
pub use mesh_operation::queue::EdgeQueue;
pub use mesh_operation::remesh::improves_valence;
pub use mesh_operation::remesh::EdgeTarget;
pub use mesh_operation::remesh::Remesh;
pub use mesh_operation::remesh::RemeshError;
pub use mesh_operation::simplify::EdgeInfo;
pub use mesh_operation::simplify::EdgeResult;
pub use mesh_operation::simplify::Simplify;
pub use mesh_operation::simplify::SimplifyState;
pub use mesh_operation::simplify::SimplifyStep;
pub use mesh_operation::subdivide::EdgeStencil;
pub use mesh_operation::subdivide::Subdivide;
pub use mesh_operation::subdivide::SubdivideError;

verus! {

} // verus!
