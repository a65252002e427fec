//! The edge split on the model, and the proof that it keeps a surface well
//! formed.
use vstd::prelude::*;
use super::slots::lemma_count_live_push;
use super::slots::lemma_count_live_update;
use super::model::EdgeRef;
use super::model::FaceRef;
use super::model::HalfEdgeRef;
use super::model::IndexType;
use super::model::MeshModel;
use super::model::Rings;
use super::model::VertexRef;
use super::rings::insert_after;

verus! {
/// The identifiers that a split hands out: the new vertex `m`, the six new
/// half-edges, the three new edges and the two new faces.
pub ghost struct Fresh {
    pub m: IndexType,
    pub m_r: IndexType,
    pub r_m: IndexType,
    pub m_o: IndexType,
    pub o_m: IndexType,
    pub m_l: IndexType,
    pub l_m: IndexType,
    pub e_r: IndexType,
    pub e_o: IndexType,
    pub e_l: IndexType,
    pub f_l: IndexType,
    pub f_r: IndexType,
}

impl<P> MeshModel<P> {
    /// The slot arrays can take what a split appends.
    pub open spec fn room_for_split(self) -> bool {
        &&& self.half_edges.len() + 6 <= u32::MAX
        &&& self.vertices.len() + 1 <= u32::MAX
        &&& self.edges.len() + 3 <= u32::MAX
        &&& self.faces.len() + 2 <= u32::MAX
    }

    /// The slot arrays can take what `k` splits append.
    pub open spec fn room_for_splits(self, k: int) -> bool {
        &&& self.half_edges.len() + 6 * k <= u32::MAX
        &&& self.vertices.len() + k <= u32::MAX
        &&& self.edges.len() + 3 * k <= u32::MAX
        &&& self.faces.len() + 2 * k <= u32::MAX
    }

    /// The identifiers that the next split hands out.  Half-edges come in
    /// the order `m→r`, `r→m`, `m→o`, `o→m`, `m→l`, `l→m`; edges in the order
    /// `m–r`, `m–o`, `m–l`; faces in the order `(m, l, o)`, `(m, o, r)`.
    pub open spec fn fresh(self) -> Fresh {
        let n = self.half_edges.len();
        let ne = self.edges.len();
        let nf = self.faces.len();
        Fresh {
            m: self.vertices.len() as IndexType,
            m_r: n as IndexType,
            r_m: (n + 1) as IndexType,
            m_o: (n + 2) as IndexType,
            o_m: (n + 3) as IndexType,
            m_l: (n + 4) as IndexType,
            l_m: (n + 5) as IndexType,
            e_r: ne as IndexType,
            e_o: (ne + 1) as IndexType,
            e_l: (ne + 2) as IndexType,
            f_l: nf as IndexType,
            f_r: (nf + 1) as IndexType,
        }
    }

    /// The surface after a new vertex `m` is put on edge `e`, shared by the
    /// triangles `(o, q, l)` and `(q, o, r)`: they become `(m, q, l)`,
    /// `(m, l, o)`, `(m, o, r)` and `(m, r, q)`.  Edge `e` then joins `m` and
    /// `q`; `m` starts at the position of `o`.
    pub open spec fn split(self, e: int) -> Self {
        let x = self.diamond(e);
        let y = self.fresh();
        let he = self.half_edges;
        MeshModel {
            half_edges: he.update(x.h as int, HalfEdgeRef { vertex_idx: y.m, ..he[x.h as int] }).update(
                x.t as int,
                HalfEdgeRef { next_idx: y.m_r, ..he[x.t as int] },
            ).update(x.tn as int, HalfEdgeRef { face_idx: y.f_r, next_idx: y.r_m, ..he[x.tn as int] }).update(
                x.hp as int,
                HalfEdgeRef { face_idx: y.f_l, next_idx: y.o_m, ..he[x.hp as int] },
            ).update(x.hn as int, HalfEdgeRef { next_idx: y.l_m, ..he[x.hn as int] }).push(
                HalfEdgeRef {
                    twin_idx: Some(y.r_m),
                    next_idx: x.tp,
                    vertex_idx: y.m,
                    edge_idx: y.e_r,
                    face_idx: x.fr,
                },
            ).push(
                HalfEdgeRef {
                    twin_idx: Some(y.m_r),
                    next_idx: y.m_o,
                    vertex_idx: x.r,
                    edge_idx: y.e_r,
                    face_idx: y.f_r,
                },
            ).push(
                HalfEdgeRef {
                    twin_idx: Some(y.o_m),
                    next_idx: x.tn,
                    vertex_idx: y.m,
                    edge_idx: y.e_o,
                    face_idx: y.f_r,
                },
            ).push(
                HalfEdgeRef {
                    twin_idx: Some(y.m_o),
                    next_idx: y.m_l,
                    vertex_idx: x.o,
                    edge_idx: y.e_o,
                    face_idx: y.f_l,
                },
            ).push(
                HalfEdgeRef {
                    twin_idx: Some(y.l_m),
                    next_idx: x.hp,
                    vertex_idx: y.m,
                    edge_idx: y.e_l,
                    face_idx: y.f_l,
                },
            ).push(
                HalfEdgeRef {
                    twin_idx: Some(y.m_l),
                    next_idx: x.h,
                    vertex_idx: x.l,
                    edge_idx: y.e_l,
                    face_idx: x.fl,
                },
            ),
            vertices: self.vertices.update(
                x.o as int,
                Some(VertexRef { half_edge_idx: x.tn, vertex: self.position(x.o as int) }),
            ).update(x.q as int, Some(VertexRef { half_edge_idx: x.hn, vertex: self.position(x.q as int) })).push(
                Some(VertexRef { half_edge_idx: x.h, vertex: self.position(x.o as int) }),
            ),
            edges: self.edges.push(Some(EdgeRef { half_edge_idx: y.m_r })).push(
                Some(EdgeRef { half_edge_idx: y.m_o }),
            ).push(Some(EdgeRef { half_edge_idx: y.m_l })),
            faces: self.faces.update(x.fr as int, Some(FaceRef { half_edge_idx: x.t })).update(
                x.fl as int,
                Some(FaceRef { half_edge_idx: x.h }),
            ).push(Some(FaceRef { half_edge_idx: y.m_l })).push(Some(FaceRef { half_edge_idx: y.m_o })),
        }
    }

    /// What the split does to each accessor.
    pub proof fn lemma_split_fields(self, e: int)
        requires
            self.links_ok(),
            self.live_edge(e),
            self.room_for_split(),
        ensures
            ({
                let x = self.diamond(e);
                let y = self.fresh();
                let m = self.split(e);
                let n = self.half_edges.len();
                &&& m.half_edges.len() == n + 6
                &&& m.vertices.len() == self.vertices.len() + 1
                &&& m.edges.len() == self.edges.len() + 3
                &&& m.faces.len() == self.faces.len() + 2
                &&& y.m == self.vertices.len() && y.m_r == n && y.r_m == n + 1 && y.m_o == n + 2
                &&& y.o_m == n + 3 && y.m_l == n + 4 && y.l_m == n + 5
                &&& y.e_r == self.edges.len() && y.e_o == self.edges.len() + 1 && y.e_l == self.edges.len() + 2
                &&& y.f_l == self.faces.len() && y.f_r == self.faces.len() + 1
                &&& forall|k: int| 0 <= k < n ==> #[trigger] m.twin(k) == self.twin(k)
                    && m.half_edges[k].twin_idx == self.half_edges[k].twin_idx
                    && m.edge_of(k) == self.edge_of(k)
                &&& forall|k: int| 0 <= k < n && !x.has(k) ==> #[trigger] m.half_edges[k] == self.half_edges[k]
                &&& m.half_edges[x.tp as int] == self.half_edges[x.tp as int]
                &&& forall|k: int| 0 <= k < n ==> #[trigger] m.live(k) == self.live(k)
                &&& forall|k: int| 0 <= k < n && k != x.h ==> #[trigger] m.origin(k) == self.origin(k)
                &&& forall|v: int| 0 <= v < self.vertices.len() ==> #[trigger] m.live_vertex(v) == self.live_vertex(v)
                &&& forall|v: int| self.live_vertex(v) ==> #[trigger] m.position(v) == self.position(v)
                &&& forall|v: int| self.live_vertex(v) && v != x.o && v != x.q ==> #[trigger] m.vertex_rep(v) == self.vertex_rep(v)
                &&& forall|d: int| 0 <= d < self.edges.len() ==> #[trigger] m.edges[d] == self.edges[d]
                &&& forall|f: int| 0 <= f < self.faces.len() ==> #[trigger] m.live_face(f) == self.live_face(f)
                &&& forall|f: int| self.live_face(f) && f != x.fl && f != x.fr ==> #[trigger] m.face_rep(f) == self.face_rep(f)
                &&& m.live_vertex(y.m as int) && m.vertex_rep(y.m as int) == x.h
                &&& m.position(y.m as int) == self.position(x.o as int)
                &&& m.vertex_rep(x.o as int) == x.tn && m.vertex_rep(x.q as int) == x.hn
                &&& m.live_edge(y.e_r as int) && m.live_edge(y.e_o as int) && m.live_edge(y.e_l as int)
                &&& m.edge_rep(y.e_r as int) == y.m_r && m.edge_rep(y.e_o as int) == y.m_o && m.edge_rep(y.e_l as int) == y.m_l
                &&& m.live_face(y.f_l as int) && m.live_face(y.f_r as int)
                &&& m.face_rep(x.fl as int) == x.h && m.face_rep(x.fr as int) == x.t
                &&& m.face_rep(y.f_l as int) == y.m_l && m.face_rep(y.f_r as int) == y.m_o
                &&& m.next(x.h as int) == x.hn && m.next(x.hn as int) == y.l_m && m.next(y.l_m as int) == x.h
                &&& m.next(x.t as int) == y.m_r && m.next(y.m_r as int) == x.tp && m.next(x.tp as int) == x.t
                &&& m.next(y.m_l as int) == x.hp && m.next(x.hp as int) == y.o_m && m.next(y.o_m as int) == y.m_l
                &&& m.next(y.m_o as int) == x.tn && m.next(x.tn as int) == y.r_m && m.next(y.r_m as int) == y.m_o
                &&& m.origin(x.h as int) == y.m && m.origin(y.m_r as int) == y.m && m.origin(y.m_o as int) == y.m
                &&& m.origin(y.m_l as int) == y.m
                &&& m.origin(y.r_m as int) == x.r && m.origin(y.o_m as int) == x.o && m.origin(y.l_m as int) == x.l
                &&& m.face_of(x.h as int) == x.fl && m.face_of(x.hn as int) == x.fl && m.face_of(y.l_m as int) == x.fl
                &&& m.face_of(x.t as int) == x.fr && m.face_of(y.m_r as int) == x.fr && m.face_of(x.tp as int) == x.fr
                &&& m.face_of(y.m_l as int) == y.f_l && m.face_of(x.hp as int) == y.f_l && m.face_of(y.o_m as int) == y.f_l
                &&& m.face_of(y.m_o as int) == y.f_r && m.face_of(x.tn as int) == y.f_r && m.face_of(y.r_m as int) == y.f_r
                &&& m.twin(y.m_r as int) == y.r_m && m.twin(y.r_m as int) == y.m_r
                &&& m.twin(y.m_o as int) == y.o_m && m.twin(y.o_m as int) == y.m_o
                &&& m.twin(y.m_l as int) == y.l_m && m.twin(y.l_m as int) == y.m_l
                &&& m.edge_of(y.m_r as int) == y.e_r && m.edge_of(y.r_m as int) == y.e_r
                &&& m.edge_of(y.m_o as int) == y.e_o && m.edge_of(y.o_m as int) == y.e_o
                &&& m.edge_of(y.m_l as int) == y.e_l && m.edge_of(y.l_m as int) == y.e_l
            }),
    {
        self.lemma_diamond(e);
        let m = self.split(e);
        assert forall|k: int| 0 <= k < self.half_edges.len() implies #[trigger] m.live(k) == self.live(k) by {
            assert(self.face_of(k) < self.faces.len());
        }
    }

    /// `k` is one of the six half-edges that the split appends.
    pub open spec fn is_fresh(self, k: int) -> bool {
        self.half_edges.len() <= k < self.half_edges.len() + 6
    }

    /// A split keeps the pointer relations.
    pub proof fn lemma_split_links(self, e: int)
        requires
            self.links_ok(),
            self.live_edge(e),
            self.room_for_split(),
        ensures
            self.split(e).links_ok(),
    {
        let x = self.diamond(e);
        let y = self.fresh();
        let m = self.split(e);
        self.lemma_diamond(e);
        self.lemma_split_fields(e);
        assert forall|k: int| 0 <= k < m.half_edges.len() implies #[trigger] m.face_of(k) < m.faces.len() by {
            if !self.is_fresh(k) {
                assert(self.face_of(k) < self.faces.len());
            }
        }
        assert forall|k: int| m.live(k) implies #[trigger] m.dart_ok(k) by {
            if self.is_fresh(k) {
            } else {
                assert(self.live(k));
                self.lemma_around(k);
                let tk = self.twin(k);
                self.lemma_around(tk);
                if !x.has(k) {
                    self.lemma_outside(e, k);
                    if !x.has(tk) {
                        self.lemma_outside(e, tk);
                    }
                }
            }
        }
        assert forall|v: int| m.live_vertex(v) implies #[trigger] m.vertex_ok(v) by {
            if v != y.m {
                assert(self.vertex_ok(v));
            }
        }
        assert forall|d: int| m.live_edge(d) implies #[trigger] m.edge_ok(d) by {
            if d < self.edges.len() {
                assert(self.edge_ok(d));
            }
        }
        assert forall|f: int| m.live_face(f) implies #[trigger] m.face_ok(f) by {
            if f < self.faces.len() {
                assert(self.face_ok(f));
            }
        }
    }

    /// A split makes no two half-edges run between the same vertices; only the
    /// two half-edges of the split edge run between other vertices than before.
    pub proof fn lemma_split_arcs(self, e: int)
        requires
            self.links_ok(),
            self.arcs_distinct(),
            self.live_edge(e),
            self.room_for_split(),
        ensures
            self.split(e).arcs_distinct(),
            forall|k: int| self.live(k) && k != self.diamond(e).h && k != self.diamond(e).t
                ==> #[trigger] self.split(e).arc(k) == self.arc(k),
    {
        let x = self.diamond(e);
        let y = self.fresh();
        let m = self.split(e);
        self.lemma_diamond(e);
        self.lemma_split_fields(e);
        assert forall|k: int| self.live(k) && k != x.h && k != x.t implies #[trigger] m.arc(k) == self.arc(k)
            && m.arc(k).0 != y.m && m.arc(k).1 != y.m by {
            self.lemma_around(k);
            if !x.has(k) {
                self.lemma_outside(e, k);
            }
        }
        assert forall|h1: int, h2: int|
            m.live(h1) && m.live(h2) && #[trigger] m.arc(h1) == #[trigger] m.arc(h2) implies h1 == h2 by {
            let old1 = !self.is_fresh(h1) && h1 != x.h && h1 != x.t;
            let old2 = !self.is_fresh(h2) && h2 != x.h && h2 != x.t;
            if old1 && old2 {
                assert(self.arc(h1) == self.arc(h2));
            } else if old1 {
                assert(m.arc(h1) == self.arc(h1));
            } else if old2 {
                assert(m.arc(h2) == self.arc(h2));
            }
        }
    }

    /// The rings after a split: the new vertex gets the ring `h`, `m→l`,
    /// `m→o`, `m→r`; `o→m` takes the place of `h` in the ring of `o`; `l→m`
    /// enters the ring of `l` behind `hp`, and `r→m` that of `r` behind `tp`.
    pub open spec fn split_rings(self, e: int, g: Rings) -> Rings {
        let x = self.diamond(e);
        let y = self.fresh();
        let ph = g.pos[x.h as int];
        let php = g.pos[x.hp as int];
        let ptp = g.pos[x.tp as int];
        Rings {
            pos: Seq::new(
                g.pos.len(),
                |k: int|
                    if k == x.h {
                        0
                    } else {
                        let v = self.origin(k);
                        let p = g.pos[k];
                        if v == x.l && p > php {
                            p + 1
                        } else if v == x.r && p > ptp {
                            p + 1
                        } else {
                            p
                        }
                    },
            ).push(3).push(ptp + 1).push(2).push(ph).push(1).push(php + 1),
            ring: g.ring.update(x.o as int, g.ring[x.o as int].update(ph, y.o_m as int)).update(
                x.l as int,
                insert_after(g.ring[x.l as int], php, y.l_m as int),
            ).update(x.r as int, insert_after(g.ring[x.r as int], ptp, y.r_m as int)).push(
                seq![x.h as int, y.m_l as int, y.m_o as int, y.m_r as int],
            ),
        }
    }

    /// What the split does to the step around a vertex from each half-edge.
    pub proof fn lemma_split_step(self, e: int, k: int)
        requires
            self.links_ok(),
            self.live_edge(e),
            self.room_for_split(),
            self.split(e).live(k),
        ensures
            ({
                let x = self.diamond(e);
                let y = self.fresh();
                let m = self.split(e);
                m.step(k) == if k == x.h {
                    y.m_l as int
                } else if k == y.m_l {
                    y.m_o as int
                } else if k == y.m_o {
                    y.m_r as int
                } else if k == y.m_r {
                    x.h as int
                } else if k == x.hp {
                    y.l_m as int
                } else if k == y.l_m {
                    self.step(x.hp as int)
                } else if k == x.tn {
                    y.o_m as int
                } else if k == y.o_m {
                    self.step(x.h as int)
                } else if k == x.tp {
                    y.r_m as int
                } else if k == y.r_m {
                    self.step(x.tp as int)
                } else {
                    self.step(k)
                }
            }),
    {
        self.lemma_diamond(e);
        self.lemma_split_fields(e);
        if !self.is_fresh(k) {
            self.lemma_around(k);
            if !self.diamond(e).has(k) {
                self.lemma_outside(e, k);
            }
        }
    }

    /// The rings after a split witness that the half-edges around each vertex
    /// form one cycle.
    pub proof fn lemma_split_rings(self, e: int, g: Rings)
        requires
            self.links_ok(),
            self.rings_ok(g),
            self.live_edge(e),
            self.room_for_split(),
        ensures
            self.split(e).rings_ok(self.split_rings(e, g)),
    {
        let x = self.diamond(e);
        let m = self.split(e);
        let g2 = self.split_rings(e, g);
        self.lemma_diamond(e);
        self.lemma_split_fields(e);
        assert(self.dart_in_ring(g, x.h as int));
        assert(self.dart_in_ring(g, x.hp as int));
        assert(self.dart_in_ring(g, x.tp as int));
        assert forall|k: int| m.live(k) implies #[trigger] m.dart_in_ring(g2, k) by {
            if !self.is_fresh(k) {
                assert(self.dart_in_ring(g, k));
                let v = self.origin(k);
                let p = g.pos[k];
                assert(self.dart_ok(k));
                assert(self.ring_slot_ok(g, v, p));
                assert(self.ring_slot_ok(g, x.o as int, g.pos[x.h as int]));
            }
        }
        assert forall|v: int, i: int| m.live_vertex(v) && 0 <= i < g2.ring[v].len() implies #[trigger] m.ring_slot_ok(
            g2,
            v,
            i,
        ) by {
            self.lemma_split_ring_slot(e, g, v, i);
        }
    }

    /// Each place of the rings after a split is as it should be.
    pub proof fn lemma_split_ring_slot(self, e: int, g: Rings, v: int, i: int)
        requires
            self.links_ok(),
            self.rings_ok(g),
            self.live_edge(e),
            self.room_for_split(),
            self.split(e).live_vertex(v),
            0 <= i < self.split_rings(e, g).ring[v].len(),
        ensures
            self.split(e).ring_slot_ok(self.split_rings(e, g), v, i),
    {
        let x = self.diamond(e);
        let y = self.fresh();
        let m = self.split(e);
        let g2 = self.split_rings(e, g);
        self.lemma_diamond(e);
        self.lemma_split_fields(e);
        assert(self.dart_in_ring(g, x.h as int));
        assert(self.dart_in_ring(g, x.t as int));
        assert(self.dart_in_ring(g, x.hp as int));
        assert(self.dart_in_ring(g, x.tp as int));
        assert(self.dart_in_ring(g, x.hn as int));
        assert(self.dart_in_ring(g, x.tn as int));
        let ph = g.pos[x.h as int];
        let php = g.pos[x.hp as int];
        let ptp = g.pos[x.tp as int];
        assert(self.ring_slot_ok(g, x.o as int, ph));
        assert(self.ring_slot_ok(g, x.l as int, php));
        assert(self.ring_slot_ok(g, x.r as int, ptp));
        assert(self.ring_slot_ok(g, x.o as int, g.pos[x.tn as int]));
        assert(self.ring_slot_ok(g, x.q as int, g.pos[x.hn as int]));
        assert(self.ring_slot_ok(g, x.q as int, g.pos[x.t as int]));
        let r2 = g2.ring[v];
        let k = r2[i];
        if v == y.m {
            self.lemma_split_step(e, k);
        } else {
            let io = if v == x.l {
                if i <= php { i } else { i - 1 }
            } else if v == x.r {
                if i <= ptp { i } else { i - 1 }
            } else {
                i
            };
            assert(self.ring_slot_ok(g, v, io));
            let jo = if io + 1 == g.ring[v].len() { 0 } else { io + 1 };
            assert(self.ring_slot_ok(g, v, jo));
            self.lemma_split_step(e, k);
            if !self.is_fresh(k) {
                self.lemma_step(k);
            }
            self.lemma_step(x.h as int);
            self.lemma_step(x.hp as int);
            self.lemma_step(x.tp as int);
        }
    }

    /// What a split does to the faces: the two at the edge and the two new
    /// ones get the corners `(m, q, l)`, `(q, m, r)`, `(m, l, o)` and
    /// `(m, o, r)`; every other face keeps its corners.
    pub proof fn lemma_split_faces(self, e: int)
        requires
            self.links_ok(),
            self.live_edge(e),
            self.room_for_split(),
        ensures
            self.split(e).face_vertices(self.diamond(e).fl as int) == (
                self.fresh().m as int,
                self.diamond(e).q as int,
                self.diamond(e).l as int,
            ),
            self.split(e).face_vertices(self.diamond(e).fr as int) == (
                self.diamond(e).q as int,
                self.fresh().m as int,
                self.diamond(e).r as int,
            ),
            self.split(e).face_vertices(self.fresh().f_l as int) == (
                self.fresh().m as int,
                self.diamond(e).l as int,
                self.diamond(e).o as int,
            ),
            self.split(e).face_vertices(self.fresh().f_r as int) == (
                self.fresh().m as int,
                self.diamond(e).o as int,
                self.diamond(e).r as int,
            ),
            forall|f: int|
                self.live_face(f) && f != self.diamond(e).fl && f != self.diamond(e).fr ==> #[trigger] self.split(
                    e,
                ).face_vertices(f) == self.face_vertices(f),
            forall|k: int|
                0 <= k < self.half_edges.len() ==> #[trigger] self.split(e).face_of(k) == if k == self.diamond(e).tn {
                    self.fresh().f_r as int
                } else if k == self.diamond(e).hp {
                    self.fresh().f_l as int
                } else {
                    self.face_of(k)
                },
    {
        let x = self.diamond(e);
        let m = self.split(e);
        self.lemma_diamond(e);
        self.lemma_split_fields(e);
        assert forall|f: int| self.live_face(f) && f != x.fl && f != x.fr implies #[trigger] m.face_vertices(f)
            == self.face_vertices(f) by {
            assert(self.face_ok(f));
            let k = self.face_rep(f);
            self.lemma_around(k);
            assert(!x.has(k));
            self.lemma_outside(e, k);
        }
    }

    /// A split keeps the surface well formed.  It adds one vertex, three
    /// edges and two faces; the new vertex starts at the position of the
    /// first end of `e`, and no other position changes.
    pub proof fn lemma_split(self, e: int)
        requires
            self.wf(),
            self.live_edge(e),
            self.room_for_split(),
        ensures
            self.split(e).wf(),
            self.split(e).num_vertices() == self.num_vertices() + 1,
            self.split(e).num_edges() == self.num_edges() + 3,
            self.split(e).num_faces() == self.num_faces() + 2,
            self.split(e).euler() == self.euler(),
            self.split(e).half_edges.len() == self.half_edges.len() + 6,
            self.split(e).vertices.len() == self.vertices.len() + 1,
            self.split(e).edges.len() == self.edges.len() + 3,
            self.split(e).faces.len() == self.faces.len() + 2,
            forall|v: int| #[trigger] self.split(e).live_vertex(v) == (self.live_vertex(v) || v == self.fresh().m),
            forall|d: int| #[trigger] self.split(e).live_edge(d) == (self.live_edge(d) || d == self.fresh().e_r
                || d == self.fresh().e_o || d == self.fresh().e_l),
            forall|f: int| #[trigger] self.split(e).live_face(f) == (self.live_face(f) || f == self.fresh().f_l
                || f == self.fresh().f_r),
            forall|v: int| self.live_vertex(v) ==> #[trigger] self.split(e).position(v) == self.position(v),
            self.split(e).position(self.fresh().m as int) == self.position(self.endpoints(e).0),
            self.split(e).endpoints(e) == (self.fresh().m as int, self.endpoints(e).1),
            self.split(e).endpoints(self.fresh().e_l as int) == (self.fresh().m as int, self.far_left(e)),
            self.split(e).endpoints(self.fresh().e_o as int) == (self.fresh().m as int, self.endpoints(e).0),
            self.split(e).endpoints(self.fresh().e_r as int) == (self.fresh().m as int, self.far_right(e)),
            forall|d: int| self.live_edge(d) && d != e ==> #[trigger] self.split(e).endpoints(d) == self.endpoints(d),
    {
        let x = self.diamond(e);
        let y = self.fresh();
        let m = self.split(e);
        self.lemma_diamond(e);
        self.lemma_split_fields(e);
        self.lemma_split_links(e);
        self.lemma_split_arcs(e);
        self.lemma_split_rings(e, self.rings());
        let f1 = self.faces.update(x.fr as int, Some(FaceRef { half_edge_idx: x.t }));
        let f2 = f1.update(x.fl as int, Some(FaceRef { half_edge_idx: x.h }));
        let f3 = f2.push(Some(FaceRef { half_edge_idx: y.m_l }));
        lemma_count_live_update(self.faces, x.fr as int, Some(FaceRef { half_edge_idx: x.t }));
        lemma_count_live_update(f1, x.fl as int, Some(FaceRef { half_edge_idx: x.h }));
        lemma_count_live_push(f2, Some(FaceRef { half_edge_idx: y.m_l }));
        lemma_count_live_push(f3, Some(FaceRef { half_edge_idx: y.m_o }));
        let v1 = self.vertices.update(
            x.o as int,
            Some(VertexRef { half_edge_idx: x.tn, vertex: self.position(x.o as int) }),
        );
        let v2 = v1.update(x.q as int, Some(VertexRef { half_edge_idx: x.hn, vertex: self.position(x.q as int) }));
        lemma_count_live_update(
            self.vertices,
            x.o as int,
            Some(VertexRef { half_edge_idx: x.tn, vertex: self.position(x.o as int) }),
        );
        lemma_count_live_update(
            v1,
            x.q as int,
            Some(VertexRef { half_edge_idx: x.hn, vertex: self.position(x.q as int) }),
        );
        lemma_count_live_push(v2, Some(VertexRef { half_edge_idx: x.h, vertex: self.position(x.o as int) }));
        let e1 = self.edges.push(Some(EdgeRef { half_edge_idx: y.m_r }));
        let e2 = e1.push(Some(EdgeRef { half_edge_idx: y.m_o }));
        lemma_count_live_push(self.edges, Some(EdgeRef { half_edge_idx: y.m_r }));
        lemma_count_live_push(e1, Some(EdgeRef { half_edge_idx: y.m_o }));
        lemma_count_live_push(e2, Some(EdgeRef { half_edge_idx: y.m_l }));
        assert forall|d: int| self.live_edge(d) && d != e implies #[trigger] m.endpoints(d) == self.endpoints(d) by {
            assert(self.edge_ok(d));
        }
    }
}

} // verus!
