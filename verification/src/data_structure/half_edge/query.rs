//! Adjacency queries on the store.
use vstd::prelude::*;
use super::as_ints;
use super::HalfEdge;
use super::super::model::IndexType;
use super::super::model::MeshModel;

verus! {

impl<P> MeshModel<P> {
    /// The three corners of face `f`, in `next` order from its representative.
    pub open spec fn face_vertices(self, f: int) -> (int, int, int) {
        let h = self.face_rep(f);
        (self.origin(h), self.origin(self.next(h)), self.origin(self.prev(h)))
    }

    /// The vertex across edge `e` on the side of its representative half-edge.
    pub open spec fn far_left(self, e: int) -> int {
        self.apex(self.edge_rep(e))
    }

    /// The vertex across edge `e` on the other side.
    pub open spec fn far_right(self, e: int) -> int {
        self.apex(self.twin(self.edge_rep(e)))
    }
}

impl<P: Copy> HalfEdge<P> {
    /// The half-edge running the other way along the same edge.
    pub(crate) fn twin_of(&self, h: IndexType) -> (r: IndexType)
        requires
            (h as int) < self@.half_edges.len(),
            self@.half_edges[h as int].twin_idx is Some,
        ensures
            r == self@.twin(h as int),
    {
        self.half_edge_refs[h as usize].twin_idx.unwrap()
    }

    /// The edge of a half-edge.
    pub(crate) fn edge_of(&self, h: IndexType) -> (r: IndexType)
        requires
            (h as int) < self@.half_edges.len(),
        ensures
            r == self@.edge_of(h as int),
    {
        self.half_edge_refs[h as usize].edge_idx
    }

    /// The face of a half-edge.
    pub(crate) fn face_of(&self, h: IndexType) -> (r: IndexType)
        requires
            (h as int) < self@.half_edges.len(),
        ensures
            r == self@.face_of(h as int),
    {
        self.half_edge_refs[h as usize].face_idx
    }

    /// The representative half-edge of a live edge.
    pub(crate) fn edge_rep(&self, e: IndexType) -> (r: IndexType)
        requires
            self@.live_edge(e as int),
        ensures
            r == self@.edge_rep(e as int),
    {
        self.edge_refs[e as usize].as_ref().unwrap().half_edge_idx
    }

    /// The representative half-edge of a live vertex.
    pub(crate) fn vertex_rep(&self, v: IndexType) -> (r: IndexType)
        requires
            self@.live_vertex(v as int),
        ensures
            r == self@.vertex_rep(v as int),
    {
        self.vertex_refs[v as usize].as_ref().unwrap().half_edge_idx
    }

    /// The representative half-edge of a live face.
    pub(crate) fn face_rep(&self, f: IndexType) -> (r: IndexType)
        requires
            self@.live_face(f as int),
        ensures
            r == self@.face_rep(f as int),
    {
        self.face_refs[f as usize].as_ref().unwrap().half_edge_idx
    }

    /// Whether `key` names a live vertex.
    pub fn is_live_vertex(&self, key: IndexType) -> (r: bool)
        ensures
            r == self@.live_vertex(key as int),
    {
        (key as usize) < self.vertex_refs.len() && self.vertex_refs[key as usize].is_some()
    }

    /// Whether `key` names a live edge.
    pub fn is_live_edge(&self, key: IndexType) -> (r: bool)
        ensures
            r == self@.live_edge(key as int),
    {
        (key as usize) < self.edge_refs.len() && self.edge_refs[key as usize].is_some()
    }

    /// Whether `key` names a live face.
    pub fn is_live_face(&self, key: IndexType) -> (r: bool)
        ensures
            r == self@.live_face(key as int),
    {
        (key as usize) < self.face_refs.len() && self.face_refs[key as usize].is_some()
    }

    /// The ends of a live edge, the vertex across it on the side of its
    /// representative half-edge, and the vertex across it on the other side.
    pub fn get_edge_neighbors(&self, key: IndexType) -> (r: ([IndexType; 3], Option<IndexType>))
        requires
            self.wf(),
            self@.live_edge(key as int),
        ensures
            (r.0[0] as int, r.0[1] as int) == self@.endpoints(key as int),
            r.0[2] as int == self@.far_left(key as int),
            r.1 == Some(self@.far_right(key as int) as IndexType),
            self@.far_right(key as int) == self@.far_right(key as int) as IndexType,
            self@.live_vertex(r.0[0] as int),
            self@.live_vertex(r.0[1] as int),
            self@.live_vertex(self@.far_left(key as int)),
            self@.live_vertex(self@.far_right(key as int)),
    {
        let h: IndexType = self.edge_rep(key);
        proof {
            assert(self@.edge_ok(key as int));
            self@.lemma_around(h as int);
            self@.lemma_around(self@.twin(h as int));
        }
        let nx: IndexType = self.next_of(h);
        let pv: IndexType = self.next_of(nx);
        let t: IndexType = self.twin_of(h);
        let tp: IndexType = self.next_of(self.next_of(t));
        ([self.origin_of(h), self.origin_of(nx), self.origin_of(pv)], Some(self.origin_of(tp)))
    }

    /// The three corners of a live face.
    pub fn get_face_neighbors(&self, key: IndexType) -> (r: [IndexType; 3])
        requires
            self.wf(),
            self@.live_face(key as int),
        ensures
            (r[0] as int, r[1] as int, r[2] as int) == self@.face_vertices(key as int),
            self@.live_vertex(r[0] as int),
            self@.live_vertex(r[1] as int),
            self@.live_vertex(r[2] as int),
            r[0] != r[1],
            r[1] != r[2],
            r[0] != r[2],
    {
        let h: IndexType = self.face_rep(key);
        proof {
            assert(self@.face_ok(key as int));
            self@.lemma_around(h as int);
        }
        let nx: IndexType = self.next_of(h);
        let pv: IndexType = self.next_of(nx);
        [self.origin_of(h), self.origin_of(nx), self.origin_of(pv)]
    }

    /// The half-edge that follows `h` around the live vertex `key`, where `h`
    /// is the one at place `k` from the representative.
    fn step_from(&self, key: IndexType, h: IndexType, Ghost(k): Ghost<int>) -> (r: IndexType)
        requires
            self.wf(),
            self@.live_vertex(key as int),
            0 <= k < self@.degree(key as int),
            h as int == self@.vertex_ring(key as int)[k],
        ensures
            r as int == self@.vertex_ring(key as int)[if k + 1 == self@.degree(key as int) { 0 } else { k + 1 }],
            (r as int == self@.vertex_rep(key as int)) == (k + 1 == self@.degree(key as int)),
            self@.live(h as int),
            self@.origin(h as int) == key,
            self@.live(self@.next(h as int)),
            self@.live_vertex(self@.dest(h as int)),
            self@.live_face(self@.face_of(h as int)),
            self@.degree(key as int) <= self@.half_edges.len(),
    {
        let ghost ring = self@.vertex_ring(key as int);
        proof {
            self@.lemma_vertex_ring(key as int);
            assert(self@.ring_place_ok(key as int, k));
            self@.lemma_around(h as int);
            self@.lemma_around(self@.prev(h as int));
            self@.lemma_around(self@.next(h as int));
            if k + 1 < ring.len() {
                assert(ring[k + 1] != ring[0]);
            }
        }
        let nx: IndexType = self.next_of(h);
        let pv: IndexType = self.next_of(nx);
        self.twin_of(pv)
    }

    /// The half-edges leaving a live vertex, counter-clockwise from its
    /// representative.
    pub fn vertex_half_edges(&self, key: IndexType) -> (out: Vec<IndexType>)
        requires
            self.wf(),
            self@.live_vertex(key as int),
        ensures
            as_ints(out@) == self@.vertex_ring(key as int),
    {
        let start: IndexType = self.vertex_rep(key);
        let mut out: Vec<IndexType> = Vec::new();
        let mut h: IndexType = start;
        let ghost ring = self@.vertex_ring(key as int);
        proof {
            self@.lemma_vertex_ring(key as int);
        }
        loop
            invariant_except_break
                out@.len() < ring.len(),
                h as int == ring[out@.len() as int],
            invariant
                self.wf(),
                self@.live_vertex(key as int),
                ring == self@.vertex_ring(key as int),
                start as int == self@.vertex_rep(key as int),
                forall|i: int| 0 <= i < out@.len() ==> out@[i] as int == ring[i],
            ensures
                out@.len() == ring.len(),
            decreases ring.len() - out@.len(),
        {
            let next: IndexType = self.step_from(key, h, Ghost(out@.len() as int));
            out.push(h);
            h = next;
            if h == start {
                break ;
            }
        }
        proof {
            assert(as_ints(out@) =~= ring);
        }
        out
    }

    /// The number of edges at a live vertex.
    pub fn degree(&self, vertex_idx: IndexType) -> (r: usize)
        requires
            self.wf(),
            self@.live_vertex(vertex_idx as int),
        ensures
            r == self@.degree(vertex_idx as int),
    {
        let start: IndexType = self.vertex_rep(vertex_idx);
        let mut h: IndexType = start;
        let mut n: usize = 0;
        let ghost ring = self@.vertex_ring(vertex_idx as int);
        proof {
            self@.lemma_vertex_ring(vertex_idx as int);
        }
        loop
            invariant_except_break
                n < ring.len(),
                h as int == ring[n as int],
            invariant
                self.wf(),
                self@.live_vertex(vertex_idx as int),
                ring == self@.vertex_ring(vertex_idx as int),
                start as int == self@.vertex_rep(vertex_idx as int),
            ensures
                n == ring.len(),
            decreases ring.len() - n,
        {
            let next: IndexType = self.step_from(vertex_idx, h, Ghost(n as int));
            n = n + 1;
            h = next;
            if h == start {
                break ;
            }
        }
        n
    }

    /// Appends the neighbours of a live vertex, counter-clockwise, to
    /// `neighbors`.  The result says whether a boundary was met, which a
    /// well-formed surface does not have.
    pub fn get_vertex_neighbors_append(&self, key: IndexType, neighbors: &mut Vec<IndexType>) -> (has_boundary:
        bool)
        requires
            self.wf(),
            self@.live_vertex(key as int),
        ensures
            !has_boundary,
            as_ints(final(neighbors)@) == as_ints(old(neighbors)@) + self@.one_ring(key as int),
    {
        let start: IndexType = self.vertex_rep(key);
        let mut h: IndexType = start;
        let ghost before = neighbors@;
        let ghost ring = self@.vertex_ring(key as int);
        let ghost mut n: int = 0;
        proof {
            self@.lemma_vertex_ring(key as int);
        }
        loop
            invariant_except_break
                n < ring.len(),
                h as int == ring[n],
            invariant
                self.wf(),
                self@.live_vertex(key as int),
                ring == self@.vertex_ring(key as int),
                start as int == self@.vertex_rep(key as int),
                0 <= n <= ring.len(),
                neighbors@.len() == before.len() + n,
                forall|j: int| 0 <= j < before.len() ==> neighbors@[j] == before[j],
                forall|j: int| 0 <= j < n ==> neighbors@[before.len() + j] as int == self@.one_ring(key as int)[j],
            ensures
                n == ring.len(),
            decreases ring.len() - n,
        {
            let next: IndexType = self.step_from(key, h, Ghost(n));
            neighbors.push(self.origin_of(self.next_of(h)));
            proof {
                n = n + 1;
            }
            h = next;
            if h == start {
                break ;
            }
        }
        proof {
            assert(as_ints(neighbors@) =~= as_ints(before) + self@.one_ring(key as int));
        }
        false
    }

    /// Replaces the contents of `neighbors` by the neighbours of a live
    /// vertex, counter-clockwise.
    pub fn get_vertex_neighbors(&self, key: IndexType, neighbors: &mut Vec<IndexType>) -> (has_boundary: bool)
        requires
            self.wf(),
            self@.live_vertex(key as int),
        ensures
            !has_boundary,
            as_ints(final(neighbors)@) == self@.one_ring(key as int),
    {
        neighbors.clear();
        let b: bool = self.get_vertex_neighbors_append(key, neighbors);
        proof {
            assert(as_ints(neighbors@) =~= self@.one_ring(key as int));
        }
        b
    }

    /// Replaces the contents of `neighbors` by the faces around a live
    /// vertex, counter-clockwise.
    pub fn get_vertex_adjacent_faces(&self, key: IndexType, neighbors: &mut Vec<IndexType>) -> (has_boundary:
        bool)
        requires
            self.wf(),
            self@.live_vertex(key as int),
        ensures
            !has_boundary,
            as_ints(final(neighbors)@) == self@.faces_around(key as int),
    {
        neighbors.clear();
        let start: IndexType = self.vertex_rep(key);
        let mut h: IndexType = start;
        let ghost ring = self@.vertex_ring(key as int);
        let ghost mut n: int = 0;
        proof {
            self@.lemma_vertex_ring(key as int);
        }
        loop
            invariant_except_break
                n < ring.len(),
                h as int == ring[n],
            invariant
                self.wf(),
                self@.live_vertex(key as int),
                ring == self@.vertex_ring(key as int),
                start as int == self@.vertex_rep(key as int),
                0 <= n <= ring.len(),
                neighbors@.len() == n,
                forall|j: int| 0 <= j < n ==> neighbors@[j] as int == self@.faces_around(key as int)[j],
            ensures
                n == ring.len(),
            decreases ring.len() - n,
        {
            let next: IndexType = self.step_from(key, h, Ghost(n));
            neighbors.push(self.face_of(h));
            proof {
                n = n + 1;
            }
            h = next;
            if h == start {
                break ;
            }
        }
        proof {
            assert(as_ints(neighbors@) =~= self@.faces_around(key as int));
        }
        false
    }

    /// Whether an edge joins two live vertices.
    pub fn are_adjacent(&self, first: IndexType, second: IndexType) -> (r: bool)
        requires
            self.wf(),
            self@.live_vertex(first as int),
        ensures
            r == self@.adjacent(first as int, second as int),
    {
        let start: IndexType = self.vertex_rep(first);
        let mut h: IndexType = start;
        let ghost ring = self@.vertex_ring(first as int);
        let ghost mut n: int = 0;
        proof {
            self@.lemma_vertex_ring(first as int);
        }
        loop
            invariant_except_break
                n < ring.len(),
                h as int == ring[n],
            invariant
                self.wf(),
                self@.live_vertex(first as int),
                ring == self@.vertex_ring(first as int),
                start as int == self@.vertex_rep(first as int),
                0 <= n <= ring.len(),
                forall|j: int| 0 <= j < n ==> self@.dest(#[trigger] ring[j]) != second,
            ensures
                n == ring.len(),
            decreases ring.len() - n,
        {
            let next: IndexType = self.step_from(first, h, Ghost(n));
            if self.origin_of(self.next_of(h)) == second {
                proof {
                    assert(self@.arc(h as int) == (first as int, second as int));
                }
                return true;
            }
            proof {
                n = n + 1;
            }
            h = next;
            if h == start {
                break ;
            }
        }
        proof {
            if self@.adjacent(first as int, second as int) {
                let k = choose|k: int| self@.live(k) && #[trigger] self@.arc(k) == (first as int, second as int);
                assert(ring.contains(k));
                let j = choose|j: int| 0 <= j < ring.len() && ring[j] == k;
                assert(self@.dest(ring[j]) != second);
                assert(false);
            }
        }
        false
    }
}

} // verus!
