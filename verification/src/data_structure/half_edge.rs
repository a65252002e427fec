//! The half-edge store: counts, iteration over identifiers, positions.
use vstd::prelude::*;
use super::model::EdgeRef;
use super::model::FaceRef;
use super::model::HalfEdgeRef;
use super::model::IndexType;
use super::model::MeshModel;
use super::model::VertexRef;
use super::slots::count_live;
use super::slots::first_live_from;
use super::slots::get_at;
use super::slots::lemma_count_live_update;

mod check;
mod collapse;
mod construct;
mod export;
mod flip;
mod query;
mod split;

verus! {
/// A half-edge store: slot arrays for half-edges, vertices, edges and faces.
///
/// Identifiers are indices into the slot arrays.  A removed vertex, edge or
/// face leaves an empty slot behind, so identifiers stay valid across
/// removals.  `P` is the type of a vertex position; the store carries
/// positions and never looks into them.
pub struct HalfEdge<P> {
    half_edge_refs: Vec<HalfEdgeRef>,
    vertex_refs: Vec<Option<VertexRef<P>>>,
    edge_refs: Vec<Option<EdgeRef>>,
    face_refs: Vec<Option<FaceRef>>,
    num_removed_vertices: usize,
    num_removed_edges: usize,
    num_removed_faces: usize,
}

impl<P> View for HalfEdge<P> {
    type V = MeshModel<P>;

    closed spec fn view(&self) -> MeshModel<P> {
        MeshModel {
            half_edges: self.half_edge_refs@,
            vertices: self.vertex_refs@,
            edges: self.edge_refs@,
            faces: self.face_refs@,
        }
    }
}

/// The identifiers in `s` as mathematical integers.
pub open spec fn as_ints(s: Seq<IndexType>) -> Seq<int> {
    Seq::new(s.len(), |i: int| s[i] as int)
}

impl<P: Copy> HalfEdge<P> {
    /// The removal counters agree with the empty slots.
    pub closed spec fn counters_ok(&self) -> bool {
        &&& self.num_removed_vertices + count_live(self.vertex_refs@) == self.vertex_refs@.len()
        &&& self.num_removed_edges + count_live(self.edge_refs@) == self.edge_refs@.len()
        &&& self.num_removed_faces + count_live(self.face_refs@) == self.face_refs@.len()
    }

    /// The store holds a well-formed surface.
    pub open spec fn wf(&self) -> bool {
        self@.wf() && self.counters_ok()
    }

    /// The number of half-edge slots.
    pub fn max_idx_half_edges(&self) -> (r: usize)
        ensures
            r == self@.half_edges.len(),
    {
        self.half_edge_refs.len()
    }

    /// One more than the greatest vertex identifier ever handed out.
    pub fn max_idx_vertices(&self) -> (r: usize)
        ensures
            r == self@.vertices.len(),
    {
        self.vertex_refs.len()
    }

    /// One more than the greatest edge identifier ever handed out.
    pub fn max_idx_edges(&self) -> (r: usize)
        ensures
            r == self@.edges.len(),
    {
        self.edge_refs.len()
    }

    /// One more than the greatest face identifier ever handed out.
    pub fn max_idx_faces(&self) -> (r: usize)
        ensures
            r == self@.faces.len(),
    {
        self.face_refs.len()
    }

    /// The number of live vertices.
    pub fn num_vertices(&self) -> (r: usize)
        requires
            self.counters_ok(),
        ensures
            r == self@.num_vertices(),
    {
        self.vertex_refs.len() - self.num_removed_vertices
    }

    /// The number of live edges.
    pub fn num_edges(&self) -> (r: usize)
        requires
            self.counters_ok(),
        ensures
            r == self@.num_edges(),
    {
        self.edge_refs.len() - self.num_removed_edges
    }

    /// The number of live faces.
    pub fn num_faces(&self) -> (r: usize)
        requires
            self.counters_ok(),
        ensures
            r == self@.num_faces(),
    {
        self.face_refs.len() - self.num_removed_faces
    }

    /// The least live vertex.
    pub fn initial_vertex(&self) -> (r: Option<IndexType>)
        requires
            self@.sizes_ok(),
        ensures
            first_live_from(self@.vertices, 0, r),
    {
        get_at(0, &self.vertex_refs)
    }

    /// The least live vertex after `key`.
    pub fn next_vertex(&self, key: IndexType) -> (r: Option<IndexType>)
        requires
            self@.sizes_ok(),
        ensures
            first_live_from(self@.vertices, key + 1, r),
    {
        if key == u32::MAX {
            None
        } else {
            get_at((key + 1) as usize, &self.vertex_refs)
        }
    }

    /// The least live edge.
    pub fn initial_edge(&self) -> (r: Option<IndexType>)
        requires
            self@.sizes_ok(),
        ensures
            first_live_from(self@.edges, 0, r),
    {
        get_at(0, &self.edge_refs)
    }

    /// The least live edge after `key`.
    pub fn next_edge(&self, key: IndexType) -> (r: Option<IndexType>)
        requires
            self@.sizes_ok(),
        ensures
            first_live_from(self@.edges, key + 1, r),
    {
        if key == u32::MAX {
            None
        } else {
            get_at((key + 1) as usize, &self.edge_refs)
        }
    }

    /// The least live face.
    pub fn initial_face(&self) -> (r: Option<IndexType>)
        requires
            self@.sizes_ok(),
        ensures
            first_live_from(self@.faces, 0, r),
    {
        get_at(0, &self.face_refs)
    }

    /// The least live face after `key`.
    pub fn next_face(&self, key: IndexType) -> (r: Option<IndexType>)
        requires
            self@.sizes_ok(),
        ensures
            first_live_from(self@.faces, key + 1, r),
    {
        if key == u32::MAX {
            None
        } else {
            get_at((key + 1) as usize, &self.face_refs)
        }
    }

    /// The position of a live vertex.
    pub fn get_position(&self, key: IndexType) -> (p: P)
        requires
            self@.live_vertex(key as int),
        ensures
            p == self@.position(key as int),
    {
        self.vertex_refs[key as usize].as_ref().unwrap().vertex
    }

    /// The position in an occupied vertex slot.
    fn get_position_raw(&self, key: IndexType) -> (p: P)
        requires
            (key as int) < self.vertex_refs@.len(),
            self.vertex_refs@[key as int] is Some,
        ensures
            p == self.vertex_refs@[key as int].unwrap().vertex,
    {
        self.vertex_refs[key as usize].as_ref().unwrap().vertex
    }

    /// Moves a live vertex; the connectivity stays as it is.
    pub fn set_position(&mut self, key: IndexType, position: &P)
        requires
            old(self)@.live_vertex(key as int),
        ensures
            final(self)@ == old(self)@.with_position(key as int, *position),
            old(self).wf() ==> final(self).wf(),
    {
        let rep: IndexType = self.vertex_refs[key as usize].as_ref().unwrap().half_edge_idx;
        self.vertex_refs[key as usize] = Some(VertexRef { half_edge_idx: rep, vertex: *position });
        proof {
            lemma_count_live_update(old(self).vertex_refs@, key as int, self.vertex_refs@[key as int]);
            if old(self).wf() {
                old(self)@.lemma_with_position(key as int, *position);
            }
        }
    }

    /// The next half-edge around the same face.
    pub(crate) fn next_of(&self, h: IndexType) -> (r: IndexType)
        requires
            (h as int) < self@.half_edges.len(),
        ensures
            r == self@.next(h as int),
    {
        self.half_edge_refs[h as usize].next_idx
    }

    /// The vertex at which a half-edge starts.
    pub(crate) fn origin_of(&self, h: IndexType) -> (r: IndexType)
        requires
            (h as int) < self@.half_edges.len(),
        ensures
            r == self@.origin(h as int),
    {
        self.half_edge_refs[h as usize].vertex_idx
    }

    /// The two ends of a live edge: the origin of its representative
    /// half-edge, then the origin of the next one.
    pub fn get_endpoints(&self, key: IndexType) -> (r: [IndexType; 2])
        requires
            self.wf(),
            self@.live_edge(key as int),
        ensures
            (r[0] as int, r[1] as int) == self@.endpoints(key as int),
            self@.live_vertex(r[0] as int),
            self@.live_vertex(r[1] as int),
            r[0] != r[1],
    {
        let h: IndexType = self.edge_refs[key as usize].as_ref().unwrap().half_edge_idx;
        proof {
            assert(self@.edge_ok(key as int));
            self@.lemma_around(h as int);
        }
        let nx: IndexType = self.next_of(h);
        [self.origin_of(h), self.origin_of(nx)]
    }
}

impl<P> MeshModel<P> {
    /// The surface with vertex `v` moved to `p`.
    pub open spec fn with_position(self, v: int, p: P) -> Self {
        MeshModel {
            vertices: self.vertices.update(
                v,
                Some(VertexRef { half_edge_idx: self.vertices[v].unwrap().half_edge_idx, vertex: p }),
            ),
            ..self
        }
    }

    /// The two ends of edge `e`.
    pub open spec fn endpoints(self, e: int) -> (int, int) {
        self.arc(self.edge_rep(e))
    }

    /// Moving a vertex keeps a surface well formed.
    pub proof fn lemma_with_position(self, v: int, p: P)
        requires
            self.wf(),
            self.live_vertex(v),
        ensures
            self.with_position(v, p).wf(),
    {
        let m = self.with_position(v, p);
        assert forall|h: int| 0 <= h < m.half_edges.len() implies #[trigger] m.face_of(h) < m.faces.len() by {
            assert(self.face_of(h) < self.faces.len());
        }
        assert forall|h: int| m.live(h) implies #[trigger] m.dart_ok(h) by {
            assert(self.dart_ok(h));
        }
        assert forall|u: int| m.live_vertex(u) implies #[trigger] m.vertex_ok(u) by {
            assert(self.vertex_ok(u));
        }
        assert forall|e: int| m.live_edge(e) implies #[trigger] m.edge_ok(e) by {
            assert(self.edge_ok(e));
        }
        assert forall|f: int| m.live_face(f) implies #[trigger] m.face_ok(f) by {
            assert(self.face_ok(f));
        }
        assert forall|h1: int, h2: int|
            m.live(h1) && m.live(h2) && #[trigger] m.arc(h1) == #[trigger] m.arc(h2) implies h1 == h2 by {
            assert(self.arc(h1) == self.arc(h2));
        }
        let g = self.rings();
        assert forall|h: int| m.live(h) implies #[trigger] m.dart_in_ring(g, h) by {
            assert(self.dart_in_ring(g, h));
        }
        assert forall|u: int, i: int| m.live_vertex(u) && 0 <= i < g.ring[u].len() implies #[trigger] m.ring_slot_ok(
            g,
            u,
            i,
        ) by {
            assert(self.ring_slot_ok(g, u, i));
        }
        assert(m.rings_ok(g));
    }
}

} // verus!
