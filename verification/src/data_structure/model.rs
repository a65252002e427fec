//! The slot arrays of a half-edge store as mathematical sequences, and what
//! makes them a well-formed surface.
use vstd::prelude::*;
use super::slots::count_live;

verus! {
/// Identifier of a vertex, an edge, a face or a half-edge: an index into the
/// store's slot arrays.
pub type IndexType = u32;

/// One directed half of an edge, bound to the face on its left.
#[derive(Clone, Copy, Debug)]
pub struct HalfEdgeRef {
    /// The half-edge running the other way along the same edge.
    pub twin_idx: Option<IndexType>,
    /// The next half-edge around the same face, counter-clockwise.
    pub next_idx: IndexType,
    /// The vertex at the tail of this half-edge.
    pub vertex_idx: IndexType,
    /// The undirected edge this half belongs to.
    pub edge_idx: IndexType,
    /// The face on the left.
    pub face_idx: IndexType,
}

/// A vertex slot: one outgoing half-edge and the position.
pub struct VertexRef<P> {
    pub half_edge_idx: IndexType,
    pub vertex: P,
}

/// An edge slot: one of its two half-edges.
#[derive(Clone, Copy, Debug)]
pub struct EdgeRef {
    pub half_edge_idx: IndexType,
}

/// A face slot: one of its three half-edges.
#[derive(Clone, Copy, Debug)]
pub struct FaceRef {
    pub half_edge_idx: IndexType,
}

/// The slot arrays of a half-edge store, as mathematical sequences.
pub ghost struct MeshModel<P> {
    pub half_edges: Seq<HalfEdgeRef>,
    pub vertices: Seq<Option<VertexRef<P>>>,
    pub edges: Seq<Option<EdgeRef>>,
    pub faces: Seq<Option<FaceRef>>,
}

/// A witness that the half-edges leaving each vertex form one cycle:
/// `ring[v]` lists them in counter-clockwise order and `pos[h]` is the place
/// of `h` in the ring of its origin.
pub ghost struct Rings {
    pub pos: Seq<int>,
    pub ring: Seq<Seq<int>>,
}

impl<P> MeshModel<P> {
    /// The next half-edge around the face of `h`.
    pub open spec fn next(self, h: int) -> int {
        self.half_edges[h].next_idx as int
    }

    /// The half-edge before `h` around its face.
    pub open spec fn prev(self, h: int) -> int {
        self.next(self.next(h))
    }

    /// The opposite half-edge, or -1 where there is none.
    pub open spec fn twin(self, h: int) -> int {
        match self.half_edges[h].twin_idx {
            Some(t) => t as int,
            None => -1,
        }
    }

    /// The vertex at the tail of `h`.
    pub open spec fn origin(self, h: int) -> int {
        self.half_edges[h].vertex_idx as int
    }

    /// The vertex at the head of `h`.
    pub open spec fn dest(self, h: int) -> int {
        self.origin(self.next(h))
    }

    /// The edge of `h`.
    pub open spec fn edge_of(self, h: int) -> int {
        self.half_edges[h].edge_idx as int
    }

    /// The face of `h`.
    pub open spec fn face_of(self, h: int) -> int {
        self.half_edges[h].face_idx as int
    }

    /// The next half-edge leaving the same vertex, counter-clockwise.
    pub open spec fn step(self, h: int) -> int {
        self.twin(self.prev(h))
    }

    /// The previous half-edge leaving the same vertex: the inverse of `step`.
    pub open spec fn step_back(self, h: int) -> int {
        self.next(self.twin(h))
    }

    /// Slot `v` holds a vertex.
    pub open spec fn live_vertex(self, v: int) -> bool {
        0 <= v < self.vertices.len() && self.vertices[v] is Some
    }

    /// Slot `e` holds an edge.
    pub open spec fn live_edge(self, e: int) -> bool {
        0 <= e < self.edges.len() && self.edges[e] is Some
    }

    /// Slot `f` holds a face.
    pub open spec fn live_face(self, f: int) -> bool {
        0 <= f < self.faces.len() && self.faces[f] is Some
    }

    /// A half-edge is live exactly while its face is.
    pub open spec fn live(self, h: int) -> bool {
        0 <= h < self.half_edges.len() && self.live_face(self.face_of(h))
    }

    /// The representative half-edge of vertex `v`, which leaves `v`.
    pub open spec fn vertex_rep(self, v: int) -> int {
        self.vertices[v].unwrap().half_edge_idx as int
    }

    /// The position of vertex `v`.
    pub open spec fn position(self, v: int) -> P {
        self.vertices[v].unwrap().vertex
    }

    /// The representative half-edge of edge `e`.
    pub open spec fn edge_rep(self, e: int) -> int {
        self.edges[e].unwrap().half_edge_idx as int
    }

    /// The representative half-edge of face `f`.
    pub open spec fn face_rep(self, f: int) -> int {
        self.faces[f].unwrap().half_edge_idx as int
    }

    /// The number of live vertices.
    pub open spec fn num_vertices(self) -> nat {
        count_live(self.vertices)
    }

    /// The number of live edges.
    pub open spec fn num_edges(self) -> nat {
        count_live(self.edges)
    }

    /// The number of live faces.
    pub open spec fn num_faces(self) -> nat {
        count_live(self.faces)
    }

    /// `V - E + F` over the live entities.
    pub open spec fn euler(self) -> int {
        self.num_vertices() - self.num_edges() + self.num_faces()
    }

    /// The corner of the face of `h` that is not an end of `h`.
    pub open spec fn apex(self, h: int) -> int {
        self.origin(self.prev(h))
    }

    /// The directed pair of vertices that `h` runs between.
    pub open spec fn arc(self, h: int) -> (int, int) {
        (self.origin(h), self.dest(h))
    }

    /// What must hold around one live half-edge.
    pub open spec fn dart_ok(self, h: int) -> bool {
        let n = self.half_edges.len();
        let nx = self.next(h);
        let t = self.twin(h);
        let e = self.edge_of(h);
        let f = self.face_of(h);
        &&& self.half_edges[h].twin_idx is Some
        &&& 0 <= nx < n
        &&& nx != h
        &&& self.face_of(nx) == f
        &&& 0 <= self.next(nx) < n
        &&& self.next(self.next(nx)) == h
        &&& self.live(t)
        &&& self.twin(t) == h
        &&& 0 <= self.next(t) < n
        &&& 0 <= self.prev(t) < n
        &&& self.origin(t) == self.origin(nx)
        &&& self.edge_of(t) == e
        &&& self.live_edge(e)
        &&& (self.edge_rep(e) == h || self.edge_rep(e) == t)
        &&& self.live_vertex(self.origin(h))
        &&& self.origin(nx) != self.origin(h)
        &&& (self.face_rep(f) == h || self.face_rep(f) == nx || self.face_rep(f) == self.next(nx))
        &&& self.apex(h) != self.apex(t)
    }

    /// The representative of live vertex `v` is live and leaves `v`.
    pub open spec fn vertex_ok(self, v: int) -> bool {
        let h = self.vertex_rep(v);
        self.live(h) && self.origin(h) == v
    }

    /// The representative of live edge `e` is live and lies on `e`.
    pub open spec fn edge_ok(self, e: int) -> bool {
        let h = self.edge_rep(e);
        self.live(h) && self.edge_of(h) == e
    }

    /// The representative of live face `f` lies in `f`.
    pub open spec fn face_ok(self, f: int) -> bool {
        let h = self.face_rep(f);
        0 <= h < self.half_edges.len() && self.face_of(h) == f
    }

    /// Every slot array can be indexed by an `IndexType`.
    pub open spec fn sizes_ok(self) -> bool {
        &&& self.half_edges.len() <= u32::MAX
        &&& self.vertices.len() <= u32::MAX
        &&& self.edges.len() <= u32::MAX
        &&& self.faces.len() <= u32::MAX
    }

    /// Every half-edge, live or not, names a face slot that exists.
    pub open spec fn faces_in_range(self) -> bool {
        forall|h: int| 0 <= h < self.half_edges.len() ==> #[trigger] self.face_of(h) < self.faces.len()
    }

    /// The pointer relations between live entities.
    pub open spec fn links_ok(self) -> bool {
        &&& self.sizes_ok()
        &&& self.faces_in_range()
        &&& forall|h: int| self.live(h) ==> #[trigger] self.dart_ok(h)
        &&& forall|v: int| self.live_vertex(v) ==> #[trigger] self.vertex_ok(v)
        &&& forall|e: int| self.live_edge(e) ==> #[trigger] self.edge_ok(e)
        &&& forall|f: int| self.live_face(f) ==> #[trigger] self.face_ok(f)
    }

    /// No two live half-edges run between the same ordered pair of vertices.
    pub open spec fn arcs_distinct(self) -> bool {
        forall|h1: int, h2: int|
            self.live(h1) && self.live(h2) && #[trigger] self.arc(h1) == #[trigger] self.arc(h2)
                ==> h1 == h2
    }

    /// The live half-edge `h` sits at its recorded place in the ring of its origin.
    pub open spec fn dart_in_ring(self, g: Rings, h: int) -> bool {
        let r = g.ring[self.origin(h)];
        0 <= g.pos[h] < r.len() && r[g.pos[h]] == h
    }

    /// Slot `i` of the ring of `v` holds a live half-edge leaving `v`, and the
    /// next slot (cyclically) holds the half-edge that `step` leads to.
    pub open spec fn ring_slot_ok(self, g: Rings, v: int, i: int) -> bool {
        let r = g.ring[v];
        let h = r[i];
        let j = if i + 1 == r.len() { 0 } else { i + 1 };
        &&& self.live(h)
        &&& self.origin(h) == v
        &&& g.pos[h] == i
        &&& self.step(h) == r[j]
    }

    /// `g` witnesses that the live half-edges leaving each vertex form one
    /// cycle under `step`.
    pub open spec fn rings_ok(self, g: Rings) -> bool {
        &&& g.pos.len() == self.half_edges.len()
        &&& g.ring.len() == self.vertices.len()
        &&& forall|h: int| self.live(h) ==> #[trigger] self.dart_in_ring(g, h)
        &&& forall|v: int, i: int|
            self.live_vertex(v) && 0 <= i < g.ring[v].len() ==> #[trigger] self.ring_slot_ok(g, v, i)
    }

    /// A closed, oriented, manifold triangle surface without loops or
    /// repeated edges, in which the two faces at an edge never share their
    /// third corner.
    pub open spec fn wf(self) -> bool {
        &&& self.links_ok()
        &&& self.arcs_distinct()
        &&& exists|g: Rings| self.rings_ok(g)
        &&& 3 * self.num_faces() == 2 * self.num_edges()
    }

    /// Some witness of the rings of a well-formed surface.
    pub open spec fn rings(self) -> Rings {
        choose|g: Rings| self.rings_ok(g)
    }
}

} // verus!
