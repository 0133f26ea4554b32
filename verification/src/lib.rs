//! A half-edge polygon mesh.
//!
//! The mesh stores its connectivity as plain indices: every half edge knows
//! its origin vertex, its twin, its face and the next and previous half edge
//! around that face. Vertex positions are carried as an opaque coordinate
//! type `P`; the library never inspects them except through [`Midpoint`].
//!
//! - [`mesh`]: the types and what makes a mesh well formed;
//! - [`orbit`]: cycles of half edges along `next`;
//! - [`construct`], [`manifold`], [`cube`]: building meshes from polygons,
//!   and why the result is well formed;
//! - [`traverse`]: cursors and walks round faces and vertices;
//! - [`tri`], [`flip`], [`split`]: editing the connectivity;
//! - [`validate`]: testing well-formedness at run time;
//! - [`display`]: text tables;
//! - [`plane`], [`edges`]: the integer side of cutting triangles with a
//!   plane and of drawing wireframes.
pub mod construct;
pub mod cube;
pub mod display;
pub mod edges;
pub mod flip;
pub mod manifold;
pub mod mesh;
pub mod orbit;
pub mod plane;
pub mod split;
pub mod traverse;
pub mod tri;
pub mod validate;

pub use mesh::{FaceList, Faces, HalfEdge, HalfEdges, Mesh, Midpoint, Vertex, Verts};
pub use display::op_id2string;
pub use plane::{classify_triangle, EdgeCut, Side, TriCut};
pub use traverse::{FaceEdgesIter, MeshTraverser, VertexEdgesIter};
