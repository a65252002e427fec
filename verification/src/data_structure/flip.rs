//! The edge flip on the model, and the proof that a legal flip keeps a
//! surface well formed.
use vstd::prelude::*;
use super::slots::lemma_count_live_update;
use super::model::FaceRef;
use super::model::HalfEdgeRef;
use super::model::MeshModel;
use super::model::Rings;
use super::model::VertexRef;
use super::rings::insert_after;
use super::rings::remove_at;

verus! {

impl<P> MeshModel<P> {
    /// Flipping edge `e` keeps the surface free of repeated edges: the two
    /// apexes at `e` are not joined yet.
    pub open spec fn flip_legal(self, e: int) -> bool {
        !self.adjacent(self.far_left(e), self.far_right(e))
    }

    /// The surface after edge `e`, shared by the triangles `(o, q, l)` and
    /// `(q, o, r)`, is turned to run between `r` and `l`: the triangles become
    /// `(o, r, l)` and `(q, l, r)`.  The six half-edges stay; the two of `e`
    /// get new origins, and the faces and the ends of the old edge get
    /// representatives that still belong to them.
    pub open spec fn flip(self, e: int) -> Self {
        let x = self.diamond(e);
        let he = self.half_edges;
        MeshModel {
            half_edges: he.update(
                x.hn as int,
                HalfEdgeRef { face_idx: x.fr, next_idx: x.t, ..he[x.hn as int] },
            ).update(x.tn as int, HalfEdgeRef { face_idx: x.fl, next_idx: x.h, ..he[x.tn as int] }).update(
                x.t as int,
                HalfEdgeRef { vertex_idx: x.l, next_idx: x.tp, ..he[x.t as int] },
            ).update(x.h as int, HalfEdgeRef { vertex_idx: x.r, next_idx: x.hp, ..he[x.h as int] }).update(
                x.tp as int,
                HalfEdgeRef { next_idx: x.hn, ..he[x.tp as int] },
            ).update(x.hp as int, HalfEdgeRef { next_idx: x.tn, ..he[x.hp as int] }),
            vertices: self.vertices.update(
                x.q as int,
                Some(VertexRef { half_edge_idx: x.hn, vertex: self.position(x.q as int) }),
            ).update(x.o as int, Some(VertexRef { half_edge_idx: x.tn, vertex: self.position(x.o as int) })),
            edges: self.edges,
            faces: self.faces.update(x.fr as int, Some(FaceRef { half_edge_idx: x.hn })).update(
                x.fl as int,
                Some(FaceRef { half_edge_idx: x.tn }),
            ),
        }
    }

    /// What the flip does to each accessor.
    pub proof fn lemma_flip_fields(self, e: int)
        requires
            self.links_ok(),
            self.live_edge(e),
        ensures
            ({
                let x = self.diamond(e);
                let m = self.flip(e);
                &&& m.half_edges.len() == self.half_edges.len()
                &&& m.vertices.len() == self.vertices.len()
                &&& m.faces.len() == self.faces.len()
                &&& forall|k: int| 0 <= k < self.half_edges.len() ==> #[trigger] m.twin(k) == self.twin(k)
                    && m.half_edges[k].twin_idx == self.half_edges[k].twin_idx
                    && m.edge_of(k) == self.edge_of(k)
                &&& forall|k: int| 0 <= k < self.half_edges.len() && !x.has(k) ==> #[trigger] m.half_edges[k] == self.half_edges[k]
                &&& forall|k: int| 0 <= k < self.half_edges.len() ==> #[trigger] m.live(k) == self.live(k)
                &&& forall|v: int| #[trigger] m.live_vertex(v) == self.live_vertex(v)
                &&& forall|v: int| self.live_vertex(v) ==> #[trigger] m.position(v) == self.position(v)
                &&& forall|v: int| self.live_vertex(v) && v != x.o && v != x.q ==> #[trigger] m.vertex_rep(v) == self.vertex_rep(v)
                &&& forall|f: int| #[trigger] m.live_face(f) == self.live_face(f)
                &&& forall|f: int| self.live_face(f) && f != x.fl && f != x.fr ==> #[trigger] m.face_rep(f) == self.face_rep(f)
                &&& m.vertex_rep(x.o as int) == x.tn && m.vertex_rep(x.q as int) == x.hn
                &&& m.face_rep(x.fl as int) == x.tn && m.face_rep(x.fr as int) == x.hn
                &&& m.next(x.h as int) == x.hp && m.next(x.hp as int) == x.tn && m.next(x.tn as int) == x.h
                &&& m.next(x.t as int) == x.tp && m.next(x.tp as int) == x.hn && m.next(x.hn as int) == x.t
                &&& m.origin(x.h as int) == x.r && m.origin(x.hp as int) == x.l && m.origin(x.tn as int) == x.o
                &&& m.origin(x.t as int) == x.l && m.origin(x.tp as int) == x.r && m.origin(x.hn as int) == x.q
                &&& m.face_of(x.h as int) == x.fl && m.face_of(x.hp as int) == x.fl && m.face_of(x.tn as int) == x.fl
                &&& m.face_of(x.t as int) == x.fr && m.face_of(x.tp as int) == x.fr && m.face_of(x.hn as int) == x.fr
            }),
    {
        self.lemma_diamond(e);
    }

    /// A legal flip keeps the pointer relations.
    pub proof fn lemma_flip_links(self, e: int)
        requires
            self.links_ok(),
            self.live_edge(e),
            self.flip_legal(e),
        ensures
            self.flip(e).links_ok(),
    {
        let x = self.diamond(e);
        let m = self.flip(e);
        self.lemma_diamond(e);
        self.lemma_flip_fields(e);
        assert(self.far_left(e) == x.l && self.far_right(e) == x.r);
        assert forall|k: int| 0 <= k < m.half_edges.len() implies #[trigger] m.face_of(k) < m.faces.len() by {
            assert(self.face_of(k) < self.faces.len());
        }
        assert forall|k: int| m.live(k) implies #[trigger] m.dart_ok(k) by {
            assert(self.live(k));
            self.lemma_around(k);
            let tk = self.twin(k);
            self.lemma_around(tk);
            if x.has(k) {
                if k == x.hp {
                    self.lemma_apex_clash(e, tk, self.next(tk));
                } else if k == x.hn {
                    self.lemma_apex_clash(e, tk, self.twin(self.prev(tk)));
                    self.lemma_around(self.prev(tk));
                } else if k == x.tn {
                    self.lemma_apex_clash(e, tk, self.prev(tk));
                } else if k == x.tp {
                    self.lemma_apex_clash(e, tk, self.twin(self.next(tk)));
                    self.lemma_around(self.next(tk));
                }
            } else {
                self.lemma_outside(e, k);
                if tk == x.hp {
                    self.lemma_apex_clash(e, k, self.next(k));
                } else if tk == x.hn {
                    self.lemma_apex_clash(e, k, self.twin(self.prev(k)));
                    self.lemma_around(self.prev(k));
                } else if tk == x.tn {
                    self.lemma_apex_clash(e, k, self.prev(k));
                } else if tk == x.tp {
                    self.lemma_apex_clash(e, k, self.twin(self.next(k)));
                    self.lemma_around(self.next(k));
                } else {
                    self.lemma_outside(e, tk);
                }
            }
        }
        assert forall|v: int| m.live_vertex(v) implies #[trigger] m.vertex_ok(v) by {
            assert(self.vertex_ok(v));
        }
        assert forall|d: int| m.live_edge(d) implies #[trigger] m.edge_ok(d) by {
            assert(self.edge_ok(d));
        }
        assert forall|f: int| m.live_face(f) implies #[trigger] m.face_ok(f) by {
            assert(self.face_ok(f));
        }
    }

    /// A legal flip makes no two half-edges run between the same vertices; only
    /// the two half-edges of the flipped edge run between other vertices than
    /// before.
    pub proof fn lemma_flip_arcs(self, e: int)
        requires
            self.links_ok(),
            self.arcs_distinct(),
            self.live_edge(e),
            self.flip_legal(e),
        ensures
            self.flip(e).arcs_distinct(),
            forall|k: int| self.live(k) && k != self.diamond(e).h && k != self.diamond(e).t
                ==> #[trigger] self.flip(e).arc(k) == self.arc(k),
            self.flip(e).arc(self.diamond(e).h as int) == (self.diamond(e).r as int, self.diamond(e).l as int),
            self.flip(e).arc(self.diamond(e).t as int) == (self.diamond(e).l as int, self.diamond(e).r as int),
    {
        let x = self.diamond(e);
        let m = self.flip(e);
        self.lemma_diamond(e);
        self.lemma_flip_fields(e);
        assert forall|k: int| self.live(k) && k != x.h && k != x.t implies #[trigger] m.arc(k) == self.arc(k) by {
            self.lemma_around(k);
            if !x.has(k) {
                self.lemma_outside(e, k);
            }
        }
        assert forall|h1: int, h2: int|
            m.live(h1) && m.live(h2) && #[trigger] m.arc(h1) == #[trigger] m.arc(h2) implies h1 == h2 by {
            if h1 != h2 {
                let a = if h1 == x.h || h1 == x.t { h2 } else { h1 };
                let b = if h1 == x.h || h1 == x.t { h1 } else { h2 };
                if b == x.h || b == x.t {
                    if a != x.h && a != x.t {
                        assert(m.arc(a) == self.arc(a));
                        self.lemma_twin_arc(a);
                        self.lemma_around(a);
                        self.lemma_apex_clash(e, a, a);
                        self.lemma_apex_clash(e, a, self.twin(a));
                    }
                } else {
                    assert(self.arc(h1) == self.arc(h2));
                }
            }
        }
    }

    /// The rings after a flip: `h` leaves the ring of `o` and enters that of
    /// `r` behind `tp`; `t` leaves the ring of `q` and enters that of `l`
    /// behind `hp`.
    pub open spec fn flip_rings(self, e: int, g: Rings) -> Rings {
        let x = self.diamond(e);
        let ph = g.pos[x.h as int];
        let pt = g.pos[x.t as int];
        let php = g.pos[x.hp as int];
        let ptp = g.pos[x.tp as int];
        Rings {
            pos: Seq::new(
                g.pos.len(),
                |k: int|
                    if k == x.h {
                        ptp + 1
                    } else if k == x.t {
                        php + 1
                    } else {
                        let v = self.origin(k);
                        let p = g.pos[k];
                        if v == x.o && p > ph {
                            p - 1
                        } else if v == x.q && p > pt {
                            p - 1
                        } else if v == x.l && p > php {
                            p + 1
                        } else if v == x.r && p > ptp {
                            p + 1
                        } else {
                            p
                        }
                    },
            ),
            ring: g.ring.update(x.o as int, remove_at(g.ring[x.o as int], ph)).update(
                x.q as int,
                remove_at(g.ring[x.q as int], pt),
            ).update(x.l as int, insert_after(g.ring[x.l as int], php, x.t as int)).update(
                x.r as int,
                insert_after(g.ring[x.r as int], ptp, x.h as int),
            ),
        }
    }

    /// The rings after a flip witness that the half-edges around each vertex
    /// form one cycle.
    pub proof fn lemma_flip_rings(self, e: int, g: Rings)
        requires
            self.links_ok(),
            self.rings_ok(g),
            self.live_edge(e),
            self.flip_legal(e),
        ensures
            self.flip(e).rings_ok(self.flip_rings(e, g)),
    {
        let x = self.diamond(e);
        let m = self.flip(e);
        let g2 = self.flip_rings(e, g);
        self.lemma_diamond(e);
        self.lemma_flip_fields(e);
        assert(self.dart_in_ring(g, x.h as int));
        assert(self.dart_in_ring(g, x.t as int));
        assert(self.dart_in_ring(g, x.hp as int));
        assert(self.dart_in_ring(g, x.tp as int));
        assert(self.dart_in_ring(g, x.hn as int));
        assert(self.dart_in_ring(g, x.tn as int));
        assert forall|k: int| m.live(k) implies #[trigger] m.dart_in_ring(g2, k) by {
            assert(self.dart_in_ring(g, k));
            let v = self.origin(k);
            let p = g.pos[k];
            assert(self.dart_ok(k));
            assert(self.ring_slot_ok(g, v, p));
            assert(self.ring_slot_ok(g, x.o as int, g.pos[x.h as int]));
            assert(self.ring_slot_ok(g, x.q as int, g.pos[x.t as int]));
        }
        assert forall|v: int, i: int| m.live_vertex(v) && 0 <= i < g2.ring[v].len() implies #[trigger] m.ring_slot_ok(
            g2,
            v,
            i,
        ) by {
            self.lemma_flip_ring_slot(e, g, v, i);
        }
    }

    /// What the flip does to the step around a vertex from each half-edge.
    pub proof fn lemma_flip_step(self, e: int, k: int)
        requires
            self.links_ok(),
            self.live_edge(e),
            self.live(k),
        ensures
            ({
                let x = self.diamond(e);
                let m = self.flip(e);
                m.step(k) == if k == x.h {
                    self.twin(x.tn as int)
                } else if k == x.t {
                    self.twin(x.hn as int)
                } else if k == x.hp {
                    x.t as int
                } else if k == x.tp {
                    x.h as int
                } else if k == x.tn {
                    self.twin(x.hp as int)
                } else if k == x.hn {
                    self.twin(x.tp as int)
                } else {
                    self.step(k)
                }
            }),
    {
        self.lemma_diamond(e);
        self.lemma_flip_fields(e);
        self.lemma_around(k);
        if !self.diamond(e).has(k) {
            self.lemma_outside(e, k);
        }
    }

    /// Each place of the rings after a flip is as it should be.
    pub proof fn lemma_flip_ring_slot(self, e: int, g: Rings, v: int, i: int)
        requires
            self.links_ok(),
            self.rings_ok(g),
            self.live_edge(e),
            self.flip_legal(e),
            self.live_vertex(v),
            0 <= i < self.flip_rings(e, g).ring[v].len(),
        ensures
            self.flip(e).ring_slot_ok(self.flip_rings(e, g), v, i),
    {
        let x = self.diamond(e);
        let g2 = self.flip_rings(e, g);
        self.lemma_diamond(e);
        self.lemma_flip_fields(e);
        assert(self.dart_in_ring(g, x.h as int));
        assert(self.dart_in_ring(g, x.t as int));
        assert(self.dart_in_ring(g, x.hp as int));
        assert(self.dart_in_ring(g, x.tp as int));
        assert(self.dart_in_ring(g, x.hn as int));
        assert(self.dart_in_ring(g, x.tn as int));
        let ph = g.pos[x.h as int];
        let pt = g.pos[x.t as int];
        let php = g.pos[x.hp as int];
        let ptp = g.pos[x.tp as int];
        assert(self.ring_slot_ok(g, x.o as int, ph));
        assert(self.ring_slot_ok(g, x.q as int, pt));
        assert(self.ring_slot_ok(g, x.l as int, php));
        assert(self.ring_slot_ok(g, x.r as int, ptp));
        assert(self.ring_slot_ok(g, x.o as int, g.pos[x.tn as int]));
        assert(self.ring_slot_ok(g, x.q as int, g.pos[x.hn as int]));
        let r2 = g2.ring[v];
        let y = r2[i];
        // the old place of `y`, where it had one
        let io = if v == x.o {
            if i < ph { i } else { i + 1 }
        } else if v == x.q {
            if i < pt { i } else { i + 1 }
        } else if v == x.l {
            if i <= php { i } else { i - 1 }
        } else if v == x.r {
            if i <= ptp { i } else { i - 1 }
        } else {
            i
        };
        if (v == x.l && i == php + 1) || (v == x.r && i == ptp + 1) {
            self.lemma_flip_step(e, y);
            let pr = if v == x.l { php } else { ptp };
            let jo = if pr + 1 == g.ring[v].len() { 0 } else { pr + 1 };
            assert(self.ring_slot_ok(g, v, pr));
            assert(self.ring_slot_ok(g, v, jo));
        } else {
            assert(self.ring_slot_ok(g, v, io));
            let jo = if io + 1 == g.ring[v].len() { 0 } else { io + 1 };
            assert(self.ring_slot_ok(g, v, jo));
            assert(y == g.ring[v][io]);
            self.lemma_flip_step(e, y);
            self.lemma_step(y);
            self.lemma_step(x.h as int);
            self.lemma_step(x.t as int);
            if v == x.o || v == x.q {
                let pd = if v == x.o { ph } else { pt };
                let jd = if pd + 1 == g.ring[v].len() { 0 } else { pd + 1 };
                assert(self.ring_slot_ok(g, v, jd));
            }
        }
    }

    /// A legal flip keeps the surface well formed.  It changes no count and
    /// no position; edge `e` then runs from the old right apex to the old left
    /// one, with the old ends as its apexes; every other edge keeps its ends.
    pub proof fn lemma_flip(self, e: int)
        requires
            self.wf(),
            self.live_edge(e),
            self.flip_legal(e),
        ensures
            self.flip(e).wf(),
            self.flip(e).num_vertices() == self.num_vertices(),
            self.flip(e).num_edges() == self.num_edges(),
            self.flip(e).num_faces() == self.num_faces(),
            self.flip(e).euler() == self.euler(),
            self.flip(e).half_edges.len() == self.half_edges.len(),
            self.flip(e).vertices.len() == self.vertices.len(),
            self.flip(e).edges == self.edges,
            self.flip(e).faces.len() == self.faces.len(),
            forall|v: int| #[trigger] self.flip(e).live_vertex(v) == self.live_vertex(v),
            forall|f: int| #[trigger] self.flip(e).live_face(f) == self.live_face(f),
            forall|v: int| self.live_vertex(v) ==> #[trigger] self.flip(e).position(v) == self.position(v),
            self.flip(e).endpoints(e) == (self.far_right(e), self.far_left(e)),
            self.flip(e).far_left(e) == self.endpoints(e).0,
            self.flip(e).far_right(e) == self.endpoints(e).1,
            forall|d: int| self.live_edge(d) && d != e ==> #[trigger] self.flip(e).endpoints(d) == self.endpoints(d),
    {
        let x = self.diamond(e);
        let m = self.flip(e);
        self.lemma_diamond(e);
        self.lemma_flip_fields(e);
        self.lemma_flip_links(e);
        self.lemma_flip_arcs(e);
        self.lemma_flip_rings(e, self.rings());
        lemma_count_live_update(self.faces, x.fr as int, Some(FaceRef { half_edge_idx: x.hn }));
        lemma_count_live_update(
            self.faces.update(x.fr as int, Some(FaceRef { half_edge_idx: x.hn })),
            x.fl as int,
            Some(FaceRef { half_edge_idx: x.tn }),
        );
        lemma_count_live_update(
            self.vertices,
            x.q as int,
            Some(VertexRef { half_edge_idx: x.hn, vertex: self.position(x.q as int) }),
        );
        lemma_count_live_update(
            self.vertices.update(
                x.q as int,
                Some(VertexRef { half_edge_idx: x.hn, vertex: self.position(x.q as int) }),
            ),
            x.o as int,
            Some(VertexRef { half_edge_idx: x.tn, vertex: self.position(x.o as int) }),
        );
        assert forall|d: int| self.live_edge(d) && d != e implies #[trigger] m.endpoints(d) == self.endpoints(d) by {
            assert(self.edge_ok(d));
        }
    }

    /// What a flip does to the faces: the two at the edge get the corners
    /// `(o, r, l)` and `(q, l, r)`; every other face keeps its corners.
    pub proof fn lemma_flip_faces(self, e: int)
        requires
            self.links_ok(),
            self.live_edge(e),
        ensures
            self.flip(e).face_vertices(self.diamond(e).fl as int) == (
                self.diamond(e).o as int,
                self.diamond(e).r as int,
                self.diamond(e).l as int,
            ),
            self.flip(e).face_vertices(self.diamond(e).fr as int) == (
                self.diamond(e).q as int,
                self.diamond(e).l as int,
                self.diamond(e).r as int,
            ),
            forall|f: int|
                self.live_face(f) && f != self.diamond(e).fl && f != self.diamond(e).fr ==> #[trigger] self.flip(
                    e,
                ).face_vertices(f) == self.face_vertices(f),
    {
        let x = self.diamond(e);
        let m = self.flip(e);
        self.lemma_diamond(e);
        self.lemma_flip_fields(e);
        assert forall|f: int| self.live_face(f) && f != x.fl && f != x.fr implies #[trigger] m.face_vertices(f)
            == self.face_vertices(f) by {
            assert(self.face_ok(f));
            let k = self.face_rep(f);
            self.lemma_around(k);
            assert(!x.has(k));
            self.lemma_outside(e, k);
        }
    }

    /// A live half-edge from the left apex at `e` to the right one would
    /// make the flip illegal.
    pub proof fn lemma_apex_clash(self, e: int, k: int, w: int)
        requires
            self.links_ok(),
            self.live_edge(e),
            self.flip_legal(e),
            self.live(k),
        ensures
            self.live(w) && self.arc(w) == (self.far_left(e), self.far_right(e)) ==> false,
    {
    }
}

} // verus!
