//! How a list of triangles becomes a half-edge store, as a mathematical
//! function.
use vstd::prelude::*;
use super::gluing::closed_manifold;
use super::slots::count_live;
use super::model::EdgeRef;
use super::model::FaceRef;
use super::model::HalfEdgeRef;
use super::model::IndexType;
use super::model::MeshModel;
use super::model::VertexRef;

verus! {
/// A triangle, as three indices into a list of points.
pub type Face = [IndexType; 3];

/// Why a list of triangles was not made into a half-edge store.
#[derive(Clone, Copy, Debug, PartialEq, Eq)]
pub enum MeshError {
    /// The triangles have more sides than an `IndexType` can number.
    TooLarge,
    /// A triangle names a point that is not in the list of points.
    VertexOutOfRange,
    /// The triangles do not form a closed manifold surface without loops or
    /// repeated edges.
    NotClosedManifold,
}

/// The directed pair `(from, to)` of point indices as one number.
pub open spec fn pair_key(from: IndexType, to: IndexType) -> u64 {
    (from as int * 0x1_0000_0000 + to as int) as u64
}

/// A surface under construction: the slot arrays so far, the vertex given to
/// each point that was met, and for each directed pair of points that some
/// side still waits for, the half-edge that runs the other way.
pub ghost struct Draft<P> {
    pub mesh: MeshModel<P>,
    pub ids: Map<IndexType, IndexType>,
    pub waiting: Map<u64, IndexType>,
}

impl<P> Draft<P> {
    /// The draft before any triangle is added.
    pub open spec fn empty() -> Self {
        Draft {
            mesh: MeshModel { half_edges: Seq::empty(), vertices: Seq::empty(), edges: Seq::empty(), faces: Seq::empty() },
            ids: Map::empty(),
            waiting: Map::empty(),
        }
    }

    /// The draft after the side from point `a` to point `b` of face
    /// `face_idx` is added as the next half-edge.
    ///
    /// A point met for the first time gets the next vertex, with this
    /// half-edge as its representative.  Where a half-edge from `b` to `a`
    /// waits, the two become twins and share its edge.  Otherwise this
    /// half-edge gets the next edge and waits for its twin.
    pub open spec fn add_side(
        self,
        points: Seq<P>,
        a: IndexType,
        b: IndexType,
        next_idx: IndexType,
        face_idx: IndexType,
    ) -> Self {
        let m = self.mesh;
        let h = m.half_edges.len() as IndexType;
        let known = self.ids.contains_key(a);
        let v = if known { self.ids[a] } else { m.vertices.len() as IndexType };
        let found = self.waiting.contains_key(pair_key(a, b));
        let t = self.waiting[pair_key(a, b)];
        let paired = if found {
            m.half_edges.update(t as int, HalfEdgeRef { twin_idx: Some(h), ..m.half_edges[t as int] })
        } else {
            m.half_edges
        };
        Draft {
            mesh: MeshModel {
                half_edges: paired.push(
                    HalfEdgeRef {
                        twin_idx: if found { Some(t) } else { None },
                        next_idx,
                        vertex_idx: v,
                        edge_idx: if found { m.half_edges[t as int].edge_idx } else { m.edges.len() as IndexType },
                        face_idx,
                    },
                ),
                vertices: if known {
                    m.vertices
                } else {
                    m.vertices.push(Some(VertexRef { half_edge_idx: h, vertex: points[a as int] }))
                },
                edges: if found { m.edges } else { m.edges.push(Some(EdgeRef { half_edge_idx: h })) },
                faces: m.faces,
            },
            ids: if known { self.ids } else { self.ids.insert(a, v) },
            waiting: if found { self.waiting } else { self.waiting.insert(pair_key(b, a), h) },
        }
    }

    /// The draft after a triangle is added: its three sides in order, as
    /// three consecutive half-edges, and its face with the first of them as
    /// representative.
    pub open spec fn add_face(self, points: Seq<P>, face: Face) -> Self {
        let start = self.mesh.half_edges.len();
        let f = self.mesh.faces.len() as IndexType;
        let d = self.add_side(points, face[0], face[1], (start + 1) as IndexType, f).add_side(
            points,
            face[1],
            face[2],
            (start + 2) as IndexType,
            f,
        ).add_side(points, face[2], face[0], start as IndexType, f);
        Draft {
            mesh: MeshModel { faces: d.mesh.faces.push(Some(FaceRef { half_edge_idx: start as IndexType })), ..d.mesh },
            ..d
        }
    }

    /// The draft after all of `faces` are added in order.
    pub open spec fn of(points: Seq<P>, faces: Seq<Face>) -> Self
        decreases faces.len(),
    {
        if faces.len() == 0 {
            Self::empty()
        } else {
            Self::of(points, faces.drop_last()).add_face(points, faces.last())
        }
    }

    /// What every draft satisfies: three half-edges per face, nothing
    /// removed, every waiting half-edge in the array, and no more vertices or
    /// edges than half-edges.
    pub open spec fn sound(self, sides: int) -> bool {
        let m = self.mesh;
        &&& m.half_edges.len() == sides
        &&& m.vertices.len() <= sides
        &&& m.edges.len() <= sides
        &&& count_live(m.vertices) == m.vertices.len()
        &&& count_live(m.edges) == m.edges.len()
        &&& count_live(m.faces) == m.faces.len()
        &&& forall|k: u64| #[trigger] self.waiting.contains_key(k) ==> (self.waiting[k] as int) < sides
    }
}

/// Every corner of every triangle names one of `count` points.
pub open spec fn corners_in_range(count: int, faces: Seq<Face>) -> bool {
    forall|i: int, c: int| 0 <= i < faces.len() && 0 <= c < 3 ==> (#[trigger] faces[i][c] as int) < count
}

/// The half-edge store that the triangles `faces` over `points` give.
pub open spec fn built<P>(points: Seq<P>, faces: Seq<Face>) -> MeshModel<P> {
    Draft::of(points, faces).mesh
}

/// Why the triangles `faces` over `points` give no store, if they do not.
pub open spec fn build_error<P>(points: Seq<P>, faces: Seq<Face>) -> Option<MeshError> {
    if 3 * faces.len() > u32::MAX {
        Some(MeshError::TooLarge)
    } else if !corners_in_range(points.len() as int, faces) {
        Some(MeshError::VertexOutOfRange)
    } else if !closed_manifold(points.len() as int, faces) {
        Some(MeshError::NotClosedManifold)
    } else {
        None
    }
}

} // verus!
