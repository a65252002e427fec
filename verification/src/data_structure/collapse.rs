//! The edge collapse on the model, and the proof that a legal collapse keeps
//! a surface well formed.
use vstd::prelude::*;
use super::diamond::Diamond;
use super::slots::lemma_count_live_bound;
use super::slots::lemma_count_live_update;
use super::model::EdgeRef;
use super::model::HalfEdgeRef;
use super::model::IndexType;
use super::model::MeshModel;
use super::model::Rings;
use super::model::VertexRef;
use super::rings::remove_at;
use super::rings::wrap;

verus! {
/// The four half-edges just outside the two triangles at an edge (the twins
/// of `hp`, `hn`, `tp` and `tn`, which run `o→l`, `l→q`, `q→r` and `r→o`),
/// and the four edges they lie on.
#[derive(Clone, Copy, Debug)]
pub struct Wings {
    pub ol: IndexType,
    pub lq: IndexType,
    pub qr: IndexType,
    pub ro: IndexType,
    /// The edge between `o` and `l`.
    pub e_ol: IndexType,
    /// The edge between `l` and `q`.
    pub e_lq: IndexType,
    /// The edge between `q` and `r`.
    pub e_qr: IndexType,
    /// The edge between `r` and `o`.
    pub e_ro: IndexType,
}

impl<P> MeshModel<P> {
    /// The half-edges and edges just outside the two triangles at edge `e`.
    pub open spec fn wings(self, e: int) -> Wings {
        let x = self.diamond(e);
        Wings {
            ol: self.half_edges[x.hp as int].twin_idx.unwrap(),
            lq: self.half_edges[x.hn as int].twin_idx.unwrap(),
            qr: self.half_edges[x.tp as int].twin_idx.unwrap(),
            ro: self.half_edges[x.tn as int].twin_idx.unwrap(),
            e_ol: self.half_edges[x.hp as int].edge_idx,
            e_lq: self.half_edges[x.hn as int].edge_idx,
            e_qr: self.half_edges[x.tp as int].edge_idx,
            e_ro: self.half_edges[x.tn as int].edge_idx,
        }
    }

    /// The four half-edges outside the two triangles at a live edge are live,
    /// twins of the four inner ones, and distinct from each other and from the
    /// six; the four outer edges are live and distinct.
    pub open spec fn wings_ok(self, e: int, x: Diamond, w: Wings) -> bool {
        &&& w == self.wings(e)
        &&& self.live(w.ol as int) && self.live(w.lq as int) && self.live(w.qr as int) && self.live(w.ro as int)
        &&& self.dart_ok(w.ol as int) && self.dart_ok(w.lq as int) && self.dart_ok(w.qr as int) && self.dart_ok(
            w.ro as int,
        )
        &&& self.twin(x.hp as int) == w.ol && self.twin(w.ol as int) == x.hp
        &&& self.twin(x.hn as int) == w.lq && self.twin(w.lq as int) == x.hn
        &&& self.twin(x.tp as int) == w.qr && self.twin(w.qr as int) == x.tp
        &&& self.twin(x.tn as int) == w.ro && self.twin(w.ro as int) == x.tn
        &&& self.arc(w.ol as int) == (x.o as int, x.l as int)
        &&& self.arc(w.lq as int) == (x.l as int, x.q as int)
        &&& self.arc(w.qr as int) == (x.q as int, x.r as int)
        &&& self.arc(w.ro as int) == (x.r as int, x.o as int)
        &&& self.edge_of(x.hp as int) == w.e_ol && self.edge_of(w.ol as int) == w.e_ol
        &&& self.edge_of(x.hn as int) == w.e_lq && self.edge_of(w.lq as int) == w.e_lq
        &&& self.edge_of(x.tp as int) == w.e_qr && self.edge_of(w.qr as int) == w.e_qr
        &&& self.edge_of(x.tn as int) == w.e_ro && self.edge_of(w.ro as int) == w.e_ro
        &&& self.live_edge(w.e_ol as int) && self.live_edge(w.e_lq as int)
        &&& self.live_edge(w.e_qr as int) && self.live_edge(w.e_ro as int)
        &&& e != w.e_ol && e != w.e_lq && e != w.e_qr && e != w.e_ro
        &&& w.e_ol != w.e_lq && w.e_ol != w.e_qr && w.e_ol != w.e_ro
        &&& w.e_lq != w.e_qr && w.e_lq != w.e_ro && w.e_qr != w.e_ro
        &&& !x.has(w.ol as int) && !x.has(w.lq as int) && !x.has(w.qr as int) && !x.has(w.ro as int)
        &&& w.ol != w.lq && w.ol != w.qr && w.ol != w.ro && w.lq != w.qr && w.lq != w.ro && w.qr != w.ro
    }

    /// What holds of the half-edges and edges just outside the two triangles at
    /// a live edge.
    pub proof fn lemma_wings(self, e: int)
        requires
            self.links_ok(),
            self.live_edge(e),
        ensures
            self.wings_ok(e, self.diamond(e), self.wings(e)),
    {
        let x = self.diamond(e);
        let w = self.wings(e);
        self.lemma_diamond(e);
        self.lemma_around(x.hp as int);
        self.lemma_around(x.hn as int);
        self.lemma_around(x.tp as int);
        self.lemma_around(x.tn as int);
        self.lemma_around(w.ol as int);
        self.lemma_around(w.lq as int);
        self.lemma_around(w.qr as int);
        self.lemma_around(w.ro as int);
        assert(self.edge_ok(e));
        assert(self.edge_ok(w.e_ol as int));
        assert(self.edge_ok(w.e_lq as int));
        assert(self.edge_ok(w.e_qr as int));
        assert(self.edge_ok(w.e_ro as int));
    }

    /// The surface with `first` and `second` made twins on edge `edge_idx`,
    /// and `second` made the representative of that edge and of the vertex
    /// `vertex_idx`.
    pub open spec fn with_twins(
        self,
        first: IndexType,
        second: IndexType,
        edge_idx: IndexType,
        vertex_idx: IndexType,
    ) -> Self {
        let he = self.half_edges.update(
            first as int,
            HalfEdgeRef { twin_idx: Some(second), edge_idx, ..self.half_edges[first as int] },
        );
        MeshModel {
            half_edges: he.update(second as int, HalfEdgeRef { twin_idx: Some(first), edge_idx, ..he[second as int] }),
            vertices: self.vertices.update(
                vertex_idx as int,
                Some(VertexRef { half_edge_idx: second, vertex: self.position(vertex_idx as int) }),
            ),
            edges: self.edges.update(edge_idx as int, Some(EdgeRef { half_edge_idx: second })),
            faces: self.faces,
        }
    }

    /// Edge `e` can be collapsed: its ends have no common neighbour besides
    /// the two apexes, and each apex has more than three edges.
    pub open spec fn collapse_legal(self, e: int) -> bool {
        let x = self.diamond(e);
        &&& forall|v: int| #[trigger]
            self.adjacent(x.o as int, v) && self.adjacent(x.q as int, v) ==> v == x.l || v == x.r
        &&& self.degree(x.l as int) > 3
        &&& self.degree(x.r as int) > 3
    }

    /// The surface after edge `e` from `o` to `q` is collapsed into `q`.
    ///
    /// The two triangles at `e` go, and with them the vertex `o` and the
    /// edges `e`, `o–l` and `o–r`.  Every live half-edge that left `o` now
    /// leaves `q`.  The half-edges outside the two triangles are joined across
    /// them: `o→l` (now `q→l`) with `l→q` on the edge `l–q`, and `r→o` (now
    /// `r→q`) with `q→r` on the edge `q–r`.
    pub open spec fn collapse(self, e: int) -> Self {
        let x = self.diamond(e);
        let w = self.wings(e);
        let he = self.half_edges;
        let moved = Seq::new(
            he.len(),
            |k: int|
                if self.live(k) && he[k].vertex_idx == x.o {
                    HalfEdgeRef { vertex_idx: x.q, ..he[k] }
                } else {
                    he[k]
                },
        );
        MeshModel {
            half_edges: moved.update(
                w.ol as int,
                HalfEdgeRef { twin_idx: Some(w.lq), edge_idx: w.e_lq, ..moved[w.ol as int] },
            ).update(w.lq as int, HalfEdgeRef { twin_idx: Some(w.ol), edge_idx: w.e_lq, ..moved[w.lq as int] }).update(
                w.qr as int,
                HalfEdgeRef { twin_idx: Some(w.ro), edge_idx: w.e_qr, ..moved[w.qr as int] },
            ).update(w.ro as int, HalfEdgeRef { twin_idx: Some(w.qr), edge_idx: w.e_qr, ..moved[w.ro as int] }),
            vertices: self.vertices.update(x.o as int, None).update(
                x.q as int,
                Some(VertexRef { half_edge_idx: w.qr, vertex: self.position(x.q as int) }),
            ).update(x.l as int, Some(VertexRef { half_edge_idx: w.lq, vertex: self.position(x.l as int) })).update(
                x.r as int,
                Some(VertexRef { half_edge_idx: w.ro, vertex: self.position(x.r as int) }),
            ),
            edges: self.edges.update(e, None).update(w.e_ol as int, None).update(w.e_ro as int, None).update(
                w.e_lq as int,
                Some(EdgeRef { half_edge_idx: w.lq }),
            ).update(w.e_qr as int, Some(EdgeRef { half_edge_idx: w.ro })),
            faces: self.faces.update(x.fl as int, None).update(x.fr as int, None),
        }
    }

    /// What the collapse does to each accessor.
    pub proof fn lemma_collapse_fields(self, e: int)
        requires
            self.links_ok(),
            self.live_edge(e),
        ensures
            ({
                let x = self.diamond(e);
                let w = self.wings(e);
                let m = self.collapse(e);
                let n = self.half_edges.len();
                &&& m.half_edges.len() == n
                &&& m.vertices.len() == self.vertices.len()
                &&& m.edges.len() == self.edges.len()
                &&& m.faces.len() == self.faces.len()
                &&& forall|k: int| 0 <= k < n ==> #[trigger] m.next(k) == self.next(k) && m.face_of(k) == self.face_of(k)
                &&& forall|k: int| 0 <= k < n ==> #[trigger] m.origin(k) == if self.live(k) && self.origin(k) == x.o {
                    x.q as int
                } else {
                    self.origin(k)
                }
                &&& forall|k: int| 0 <= k < n && k != w.ol && k != w.lq && k != w.qr && k != w.ro ==> #[trigger] m.twin(k) == self.twin(k)
                    && m.half_edges[k].twin_idx == self.half_edges[k].twin_idx
                    && m.edge_of(k) == self.edge_of(k)
                &&& forall|k: int| 0 <= k < n ==> #[trigger] m.live(k) == (self.live(k) && !x.has(k))
                &&& forall|v: int| #[trigger] m.live_vertex(v) == (self.live_vertex(v) && v != x.o)
                &&& forall|v: int| m.live_vertex(v) ==> #[trigger] m.position(v) == self.position(v)
                &&& forall|v: int| m.live_vertex(v) && v != x.q && v != x.l && v != x.r ==> #[trigger] m.vertex_rep(v) == self.vertex_rep(v)
                &&& forall|d: int| #[trigger] m.live_edge(d) == (self.live_edge(d) && d != e && d != w.e_ol && d != w.e_ro)
                &&& forall|d: int| m.live_edge(d) && d != w.e_lq && d != w.e_qr ==> #[trigger] m.edge_rep(d) == self.edge_rep(d)
                &&& forall|f: int| #[trigger] m.live_face(f) == (self.live_face(f) && f != x.fl && f != x.fr)
                &&& forall|f: int| m.live_face(f) ==> #[trigger] m.face_rep(f) == self.face_rep(f)
                &&& m.vertex_rep(x.q as int) == w.qr && m.vertex_rep(x.l as int) == w.lq && m.vertex_rep(x.r as int) == w.ro
                &&& m.edge_rep(w.e_lq as int) == w.lq && m.edge_rep(w.e_qr as int) == w.ro
                &&& m.twin(w.ol as int) == w.lq && m.twin(w.lq as int) == w.ol
                &&& m.twin(w.qr as int) == w.ro && m.twin(w.ro as int) == w.qr
                &&& m.half_edges[w.ol as int].twin_idx is Some && m.half_edges[w.lq as int].twin_idx is Some
                &&& m.half_edges[w.qr as int].twin_idx is Some && m.half_edges[w.ro as int].twin_idx is Some
                &&& m.edge_of(w.ol as int) == w.e_lq && m.edge_of(w.lq as int) == w.e_lq
                &&& m.edge_of(w.qr as int) == w.e_qr && m.edge_of(w.ro as int) == w.e_qr
            }),
    {
        let x = self.diamond(e);
        let m = self.collapse(e);
        self.lemma_diamond(e);
        self.lemma_wings(e);
        assert forall|k: int| 0 <= k < self.half_edges.len() implies #[trigger] m.live(k) == (self.live(k) && !x.has(
            k,
        )) by {
            assert(self.face_of(k) < self.faces.len());
            if self.live(k) && !x.has(k) {
                self.lemma_outside(e, k);
            }
        }
    }

    /// Adjacency does not depend on the direction.
    pub proof fn lemma_adjacent(self, k: int)
        requires
            self.links_ok(),
            self.live(k),
        ensures
            self.adjacent(self.origin(k), self.dest(k)),
            self.adjacent(self.dest(k), self.origin(k)),
    {
        self.lemma_around(k);
        self.lemma_twin_arc(k);
        assert(self.arc(k) == (self.origin(k), self.dest(k)));
        assert(self.live(self.twin(k)) && self.arc(self.twin(k)) == (self.dest(k), self.origin(k)));
    }

    /// Where edge `e` can be collapsed, a vertex joined to both of its ends
    /// is one of the two apexes.
    pub proof fn lemma_common(self, e: int, v: int, ka: int, kb: int)
        requires
            self.links_ok(),
            self.live_edge(e),
            self.collapse_legal(e),
            self.live(ka),
            self.live(kb),
            self.arc(ka) == (self.diamond(e).o as int, v) || self.arc(ka) == (v, self.diamond(e).o as int),
            self.arc(kb) == (self.diamond(e).q as int, v) || self.arc(kb) == (v, self.diamond(e).q as int),
        ensures
            v == self.diamond(e).l || v == self.diamond(e).r,
    {
        let x = self.diamond(e);
        self.lemma_adjacent(ka);
        self.lemma_adjacent(kb);
        assert(self.adjacent(x.o as int, v) && self.adjacent(x.q as int, v));
    }

    /// Where edge `e` can be collapsed, the faces outside `o→l` and `l→q` do
    /// not both have `r` as their third corner: `l` would have three edges
    /// only.
    pub proof fn lemma_no_double_fan(self, e: int)
        requires
            self.wf(),
            self.live_edge(e),
            self.collapse_legal(e),
        ensures
            !(self.apex(self.wings(e).ol as int) == self.diamond(e).r && self.apex(self.wings(e).lq as int)
                == self.diamond(e).r),
    {
        let x = self.diamond(e);
        let w = self.wings(e);
        let g = self.rings();
        self.lemma_diamond(e);
        self.lemma_wings(e);
        if self.apex(w.ol as int) == x.r && self.apex(w.lq as int) == x.r {
            let a = self.next(w.ol as int);
            let b = self.prev(w.lq as int);
            self.lemma_around(w.ol as int);
            self.lemma_around(w.lq as int);
            self.lemma_around(a);
            self.lemma_around(b);
            self.lemma_twin_arc(b);
            assert(self.arc(a) == (x.l as int, x.r as int));
            assert(self.arc(self.twin(b)) == (x.l as int, x.r as int));
            assert(self.twin(b) == a);
            assert(self.step(x.hp as int) == w.lq);
            assert(self.step(w.lq as int) == a);
            assert(self.step(a) == x.hp);
            assert(self.vertex_ok(x.l as int));
            self.lemma_ring_from(g, self.vertex_rep(x.l as int));
            let len = g.ring[x.l as int].len();
            assert(self.degree(x.l as int) == len);
            assert(self.dart_in_ring(g, x.hp as int));
            assert(self.dart_in_ring(g, w.lq as int));
            assert(self.dart_in_ring(g, a));
            let i0 = g.pos[x.hp as int];
            let i1 = if i0 + 1 == len { 0 } else { i0 + 1 };
            let i2 = if i1 + 1 == len { 0 } else { i1 + 1 };
            let i3 = if i2 + 1 == len { 0 } else { i2 + 1 };
            assert(self.ring_slot_ok(g, x.l as int, i0));
            assert(self.ring_slot_ok(g, x.l as int, i1));
            assert(self.ring_slot_ok(g, x.l as int, i2));
            assert(self.ring_slot_ok(g, x.l as int, i3));
            assert(i3 == i0);
            assert(false);
        }
    }

    /// Two live half-edges of a surface without repeated edges that run
    /// between the same vertices are one.
    pub proof fn lemma_arc_unique(self, k1: int, k2: int)
        requires
            self.arcs_distinct(),
            self.live(k1),
            self.live(k2),
            self.origin(k1) == self.origin(k2),
            self.dest(k1) == self.dest(k2),
        ensures
            k1 == k2,
    {
        assert(self.arc(k1) == self.arc(k2));
    }

    /// What the collapse does to the arc of a surviving half-edge: `o`
    /// becomes `q`.
    pub proof fn lemma_collapse_arc(self, e: int, k: int)
        requires
            self.links_ok(),
            self.live_edge(e),
            self.collapse(e).live(k),
        ensures
            ({
                let x = self.diamond(e);
                let m = self.collapse(e);
                &&& self.live(k)
                &&& !x.has(k)
                &&& self.live(self.next(k)) && m.live(self.next(k))
                &&& self.live(self.prev(k)) && m.live(self.prev(k))
                &&& m.origin(k) == if self.origin(k) == x.o { x.q as int } else { self.origin(k) }
                &&& m.dest(k) == if self.dest(k) == x.o { x.q as int } else { self.dest(k) }
                &&& m.apex(k) == if self.apex(k) == x.o { x.q as int } else { self.apex(k) }
            }),
    {
        self.lemma_diamond(e);
        self.lemma_wings(e);
        self.lemma_collapse_fields(e);
        self.lemma_around(k);
        self.lemma_outside(e, k);
    }

    /// After a legal collapse the two faces at a surviving edge still have
    /// different apexes.
    pub proof fn lemma_collapse_apex(self, e: int, k: int)
        requires
            self.wf(),
            self.live_edge(e),
            self.collapse_legal(e),
            self.collapse(e).live(k),
        ensures
            self.collapse(e).live(self.collapse(e).twin(k)),
            self.collapse(e).apex(k) != self.collapse(e).apex(self.collapse(e).twin(k)),
    {
        let x = self.diamond(e);
        let w = self.wings(e);
        let m = self.collapse(e);
        self.lemma_diamond(e);
        self.lemma_wings(e);
        self.lemma_collapse_fields(e);
        self.lemma_collapse_arc(e, k);
        self.lemma_no_double_fan(e);
        self.lemma_around(k);
        let tk = m.twin(k);
        assert(self.live(tk) && !x.has(tk)) by {
            if k != w.ol && k != w.lq && k != w.qr && k != w.ro {
                self.lemma_around(self.twin(k));
                if x.has(self.twin(k)) {
                    self.lemma_around(self.twin(self.twin(k)));
                }
            }
        }
        self.lemma_collapse_arc(e, tk);
        self.lemma_around(tk);
        let a1 = self.apex(k);
        if m.apex(k) == m.apex(tk) {
            let pk = self.prev(k);
            let nk = self.next(k);
            let pt = self.prev(tk);
            let nt = self.next(tk);
            self.lemma_around(pk);
            self.lemma_around(nk);
            self.lemma_around(pt);
            self.lemma_around(nt);
            self.lemma_around(w.ol as int);
            self.lemma_around(w.lq as int);
            self.lemma_around(w.qr as int);
            self.lemma_around(w.ro as int);
            if k == w.ol || k == w.lq || k == w.qr || k == w.ro {
                // the two faces joined across the removed triangles
                let ko = if k == w.ol || k == w.lq { w.ol as int } else { w.ro as int };
                let kq = if k == w.ol || k == w.lq { w.lq as int } else { w.qr as int };
                let z = self.apex(ko);
                if self.apex(kq) == x.o {
                    if kq == w.lq {
                        self.lemma_arc_unique(self.next(kq), x.t as int);
                    } else {
                        self.lemma_arc_unique(self.prev(kq), x.h as int);
                    }
                    assert(false);
                }
                assert(self.apex(kq) == z);
                if ko == w.ol {
                    self.lemma_common(e, z, self.prev(ko), self.next(kq));
                    assert(z == x.r);
                } else {
                    self.lemma_common(e, z, self.next(ko), self.prev(kq));
                    assert(z == x.l);
                    self.lemma_arc_unique(self.next(ko), w.ol as int);
                    self.lemma_arc_unique(self.prev(kq), w.lq as int);
                }
                assert(false);
            } else {
                assert(tk == self.twin(k));
                // one apex is `o`, the other `q`
                let ko = if a1 == x.o { k } else { tk };
                let kq = if a1 == x.o { tk } else { k };
                assert(self.apex(ko) == x.o && self.apex(kq) == x.q);
                assert(self.twin(ko) == kq && self.twin(kq) == ko);
                let u = self.origin(ko);
                let v = self.dest(ko);
                self.lemma_around(self.prev(ko));
                self.lemma_around(self.next(ko));
                self.lemma_around(self.prev(kq));
                self.lemma_around(self.next(kq));
                self.lemma_common(e, u, self.prev(ko), self.next(kq));
                self.lemma_common(e, v, self.next(ko), self.prev(kq));
                if u == x.l {
                    self.lemma_arc_unique(self.prev(ko), w.ol as int);
                    self.lemma_arc_unique(self.next(kq), w.lq as int);
                } else {
                    self.lemma_arc_unique(self.prev(ko), x.tn as int);
                }
                assert(false);
            }
        }
    }

    /// The twin of a surviving half-edge after the collapse.
    pub proof fn lemma_collapse_twin(self, e: int, k: int)
        requires
            self.wf(),
            self.live_edge(e),
            self.collapse_legal(e),
            self.collapse(e).live(k),
        ensures
            ({
                let x = self.diamond(e);
                let w = self.wings(e);
                let m = self.collapse(e);
                let tk = m.twin(k);
                &&& m.half_edges[k].twin_idx is Some
                &&& m.live(tk)
                &&& self.live(tk)
                &&& m.twin(tk) == k
                &&& m.origin(tk) == m.origin(m.next(k))
                &&& m.edge_of(tk) == m.edge_of(k)
                &&& m.live_edge(m.edge_of(k))
                &&& (m.edge_rep(m.edge_of(k)) == k || m.edge_rep(m.edge_of(k)) == tk)
            }),
    {
        let x = self.diamond(e);
        let w = self.wings(e);
        let m = self.collapse(e);
        self.lemma_diamond(e);
        self.lemma_wings(e);
        self.lemma_collapse_fields(e);
        self.lemma_collapse_arc(e, k);
        self.lemma_collapse_apex(e, k);
        let tk = m.twin(k);
        self.lemma_collapse_arc(e, tk);
        self.lemma_collapse_arc(e, self.next(k));
        self.lemma_around(k);
        self.lemma_around(tk);
        if k == w.ol || k == w.lq || k == w.qr || k == w.ro {
        } else {
            assert(tk == self.twin(k));
            assert(tk != w.ol && tk != w.lq && tk != w.qr && tk != w.ro);
            let d = self.edge_of(k);
            assert(self.edge_ok(d));
            assert(self.edge_ok(e));
            assert(self.edge_ok(w.e_ol as int));
            assert(self.edge_ok(w.e_ro as int));
            assert(self.edge_ok(w.e_lq as int));
            assert(self.edge_ok(w.e_qr as int));
            assert(d != e);
            assert(d != w.e_ol);
            assert(d != w.e_ro);
            assert(d != w.e_lq);
            assert(d != w.e_qr);
        }
    }

    /// After a legal collapse a surviving half-edge is linked as it should be.
    pub proof fn lemma_collapse_dart(self, e: int, k: int)
        requires
            self.wf(),
            self.live_edge(e),
            self.collapse_legal(e),
            self.collapse(e).live(k),
        ensures
            self.collapse(e).dart_ok(k),
    {
        let x = self.diamond(e);
        self.lemma_diamond(e);
        self.lemma_collapse_fields(e);
        self.lemma_collapse_twin(e, k);
        self.lemma_collapse_apex(e, k);
        self.lemma_collapse_arc(e, k);
        self.lemma_around(k);
        self.lemma_collapse_arc(e, self.next(k));
        assert(self.face_ok(self.face_of(k)));
        if self.origin(k) == x.o && self.dest(k) == x.q {
            self.lemma_arc_unique(k, x.h as int);
        }
        if self.origin(k) == x.q && self.dest(k) == x.o {
            self.lemma_arc_unique(k, x.t as int);
        }
    }

    /// A legal collapse keeps the pointer relations.
    pub proof fn lemma_collapse_links(self, e: int)
        requires
            self.wf(),
            self.live_edge(e),
            self.collapse_legal(e),
        ensures
            self.collapse(e).links_ok(),
    {
        let x = self.diamond(e);
        let w = self.wings(e);
        let m = self.collapse(e);
        self.lemma_diamond(e);
        self.lemma_wings(e);
        self.lemma_collapse_fields(e);
        assert forall|k: int| 0 <= k < m.half_edges.len() implies #[trigger] m.face_of(k) < m.faces.len() by {
            assert(self.face_of(k) < self.faces.len());
        }
        assert forall|k: int| m.live(k) implies #[trigger] m.dart_ok(k) by {
            self.lemma_collapse_dart(e, k);
        }
        assert forall|v: int| m.live_vertex(v) implies #[trigger] m.vertex_ok(v) by {
            assert(self.vertex_ok(v));
            if v != x.q && v != x.l && v != x.r {
                let k = self.vertex_rep(v);
                assert(!x.has(k));
            }
        }
        assert forall|d: int| m.live_edge(d) implies #[trigger] m.edge_ok(d) by {
            assert(self.edge_ok(d));
            let k = self.edge_rep(d);
            if d != w.e_lq && d != w.e_qr {
                assert(self.dart_ok(k));
                assert(self.edge_ok(e));
                assert(self.edge_ok(w.e_ol as int));
                assert(self.edge_ok(w.e_ro as int));
                assert(self.edge_ok(w.e_lq as int));
                assert(self.edge_ok(w.e_qr as int));
            }
        }
        assert forall|f: int| m.live_face(f) implies #[trigger] m.face_ok(f) by {
            assert(self.face_ok(f));
        }
    }

    /// A legal collapse makes no two half-edges run between the same vertices.
    pub proof fn lemma_collapse_arcs(self, e: int)
        requires
            self.wf(),
            self.live_edge(e),
            self.collapse_legal(e),
        ensures
            self.collapse(e).arcs_distinct(),
    {
        let x = self.diamond(e);
        let m = self.collapse(e);
        self.lemma_diamond(e);
        self.lemma_wings(e);
        self.lemma_collapse_fields(e);
        assert forall|k1: int, k2: int|
            m.live(k1) && m.live(k2) && #[trigger] m.arc(k1) == #[trigger] m.arc(k2) implies k1 == k2 by {
            self.lemma_collapse_arc(e, k1);
            self.lemma_collapse_arc(e, k2);
            self.lemma_around(k1);
            self.lemma_around(k2);
            let o1 = self.origin(k1);
            let o2 = self.origin(k2);
            let d1 = self.dest(k1);
            let d2 = self.dest(k2);
            if o1 == o2 && d1 == d2 {
                self.lemma_arc_unique(k1, k2);
            } else {
                // one of the two touched `o`, the other `q`
                let ka = if o1 == x.o || d1 == x.o { k1 } else { k2 };
                let kb = if o1 == x.o || d1 == x.o { k2 } else { k1 };
                let oa = self.origin(ka);
                let da = self.dest(ka);
                let ob = self.origin(kb);
                let db = self.dest(kb);
                if oa == x.o && da == x.q {
                    self.lemma_arc_unique(ka, x.h as int);
                } else if oa == x.q && da == x.o {
                    self.lemma_arc_unique(ka, x.t as int);
                } else if ob == x.o && db == x.q {
                    self.lemma_arc_unique(kb, x.h as int);
                } else if ob == x.q && db == x.o {
                    self.lemma_arc_unique(kb, x.t as int);
                } else if oa == x.o {
                    // `ka` runs o→v and `kb` runs q→v
                    self.lemma_common(e, da, ka, kb);
                    if da == x.l {
                        self.lemma_arc_unique(kb, x.hn as int);
                    } else {
                        self.lemma_arc_unique(ka, x.tn as int);
                    }
                } else {
                    // `ka` runs v→o and `kb` runs v→q
                    self.lemma_common(e, oa, ka, kb);
                    if oa == x.l {
                        self.lemma_arc_unique(ka, x.hp as int);
                    } else {
                        self.lemma_arc_unique(kb, x.tp as int);
                    }
                }
            }
        }
    }

    /// The rings after a collapse: the ring of `q` is what is left of its
    /// old ring (from `q→r` round to the half-edge before `q→l`) followed by
    /// what is left of the ring of `o` (from `o→l` round to the half-edge
    /// before `o→r`); `hp` leaves the ring of `l` and `tp` that of `r`.
    pub open spec fn collapse_rings(self, e: int, g: Rings) -> Rings {
        let x = self.diamond(e);
        let ph = g.pos[x.h as int];
        let pt = g.pos[x.t as int];
        let php = g.pos[x.hp as int];
        let ptp = g.pos[x.tp as int];
        let ring_q = g.ring[x.q as int];
        let ring_o = g.ring[x.o as int];
        let dq = ring_q.len() as int;
        let d_o = ring_o.len() as int;
        Rings {
            pos: Seq::new(
                g.pos.len(),
                |k: int|
                    {
                        let v = self.origin(k);
                        let p = g.pos[k];
                        if v == x.q {
                            (if p > pt {
                                p - pt
                            } else {
                                p - pt + dq
                            }) - 1
                        } else if v == x.o {
                            (dq - 2) + (if p > ph {
                                p - ph
                            } else {
                                p - ph + d_o
                            }) - 1
                        } else if v == x.l && p > php {
                            p - 1
                        } else if v == x.r && p > ptp {
                            p - 1
                        } else {
                            p
                        }
                    },
            ),
            ring: g.ring.update(
                x.q as int,
                Seq::new(
                    (dq - 2 + d_o - 2) as nat,
                    |i: int|
                        if i < dq - 2 {
                            ring_q[wrap(pt + 1 + i, dq)]
                        } else {
                            ring_o[wrap(ph + 1 + (i - (dq - 2)), d_o)]
                        },
                ),
            ).update(x.l as int, remove_at(g.ring[x.l as int], php)).update(
                x.r as int,
                remove_at(g.ring[x.r as int], ptp),
            ),
        }
    }

    /// Where the half-edges of the two triangles and their twins sit in the
    /// rings of the four vertices.
    pub open spec fn collapse_places(self, e: int, g: Rings) -> bool {
        let x = self.diamond(e);
        let w = self.wings(e);
        let ring_q = g.ring[x.q as int];
        let ring_o = g.ring[x.o as int];
        let ring_l = g.ring[x.l as int];
        let ring_r = g.ring[x.r as int];
        let dq = ring_q.len() as int;
        let d_o = ring_o.len() as int;
        let dl = ring_l.len() as int;
        let dr = ring_r.len() as int;
        let ph = g.pos[x.h as int];
        let pt = g.pos[x.t as int];
        let php = g.pos[x.hp as int];
        let ptp = g.pos[x.tp as int];
        &&& dq >= 3 && d_o >= 3 && dl >= 3 && dr >= 3
        &&& 0 <= ph < d_o && ring_o[ph] == x.h
        &&& 0 <= pt < dq && ring_q[pt] == x.t
        &&& 0 <= php < dl && ring_l[php] == x.hp
        &&& 0 <= ptp < dr && ring_r[ptp] == x.tp
        &&& g.pos[w.ol as int] == wrap(ph + 1, d_o) && ring_o[wrap(ph + 1, d_o)] == w.ol
        &&& g.pos[x.tn as int] == wrap(ph + d_o - 1, d_o) && ring_o[wrap(ph + d_o - 1, d_o)] == x.tn
        &&& g.pos[w.qr as int] == wrap(pt + 1, dq) && ring_q[wrap(pt + 1, dq)] == w.qr
        &&& g.pos[x.hn as int] == wrap(pt + dq - 1, dq) && ring_q[wrap(pt + dq - 1, dq)] == x.hn
        &&& g.pos[w.lq as int] == wrap(php + 1, dl) && ring_l[wrap(php + 1, dl)] == w.lq
        &&& g.pos[w.ro as int] == wrap(ptp + 1, dr) && ring_r[wrap(ptp + 1, dr)] == w.ro
    }

    /// Where the half-edges at a live edge sit in the rings of the four vertices
    /// around it.
    pub proof fn lemma_collapse_places(self, e: int, g: Rings)
        requires
            self.links_ok(),
            self.rings_ok(g),
            self.live_edge(e),
        ensures
            self.collapse_places(e, g),
    {
        let x = self.diamond(e);
        let w = self.wings(e);
        self.lemma_diamond(e);
        self.lemma_wings(e);
        let ring_q = g.ring[x.q as int];
        let ring_o = g.ring[x.o as int];
        let ring_l = g.ring[x.l as int];
        let ring_r = g.ring[x.r as int];
        let dq = ring_q.len() as int;
        let d_o = ring_o.len() as int;
        let dl = ring_l.len() as int;
        let dr = ring_r.len() as int;
        assert(self.dart_in_ring(g, x.h as int));
        assert(self.dart_in_ring(g, x.t as int));
        assert(self.dart_in_ring(g, x.hp as int));
        assert(self.dart_in_ring(g, x.tp as int));
        assert(self.dart_in_ring(g, x.hn as int));
        assert(self.dart_in_ring(g, x.tn as int));
        assert(self.dart_in_ring(g, w.ol as int));
        assert(self.dart_in_ring(g, w.lq as int));
        assert(self.dart_in_ring(g, w.qr as int));
        assert(self.dart_in_ring(g, w.ro as int));
        let ph = g.pos[x.h as int];
        let pt = g.pos[x.t as int];
        let php = g.pos[x.hp as int];
        let ptp = g.pos[x.tp as int];
        assert(self.ring_slot_ok(g, x.o as int, ph));
        assert(self.ring_slot_ok(g, x.o as int, wrap(ph + 1, d_o)));
        assert(self.ring_slot_ok(g, x.o as int, g.pos[x.tn as int]));
        assert(self.ring_slot_ok(g, x.o as int, wrap(g.pos[x.tn as int] + 1, d_o)));
        assert(self.ring_slot_ok(g, x.q as int, wrap(g.pos[x.hn as int] + 1, dq)));
        assert(self.ring_slot_ok(g, x.q as int, pt));
        assert(self.ring_slot_ok(g, x.q as int, wrap(pt + 1, dq)));
        assert(self.ring_slot_ok(g, x.q as int, g.pos[x.hn as int]));
        assert(self.ring_slot_ok(g, x.l as int, php));
        assert(self.ring_slot_ok(g, x.l as int, wrap(php + 1, dl)));
        assert(self.ring_slot_ok(g, x.l as int, g.pos[w.lq as int]));
        assert(self.ring_slot_ok(g, x.r as int, ptp));
        assert(self.ring_slot_ok(g, x.r as int, wrap(ptp + 1, dr)));
        assert(self.ring_slot_ok(g, x.r as int, g.pos[w.ro as int]));
        self.lemma_around(x.h as int);
        self.lemma_around(x.t as int);
        self.lemma_around(x.hp as int);
        self.lemma_around(x.tp as int);
        self.lemma_around(x.hn as int);
        self.lemma_around(x.tn as int);
        // a third half-edge in the rings of `l` and `r`
        let l3 = self.step(w.lq as int);
        let r3 = self.step(w.ro as int);
        self.lemma_step(w.lq as int);
        self.lemma_step(w.ro as int);
        self.lemma_step(x.hp as int);
        self.lemma_step(x.tp as int);
        self.lemma_around(w.lq as int);
        self.lemma_around(w.ro as int);
        self.lemma_around(self.prev(w.lq as int));
        self.lemma_around(self.prev(w.ro as int));
        assert(self.dest(l3) == self.apex(w.lq as int));
        assert(self.dest(r3) == self.apex(w.ro as int));
        assert(l3 != x.hp && l3 != w.lq);
        assert(r3 != x.tp && r3 != w.ro);
        assert(self.dart_in_ring(g, l3));
        assert(self.dart_in_ring(g, r3));
        assert(dl >= 3);
        assert(dr >= 3);
        assert(dq >= 3);
        assert(d_o >= 3);
    }

    /// What the collapse does to the step around a vertex from a surviving
    /// half-edge: where it led to a half-edge that goes, it now leads to the one
    /// joined across the removed triangle.
    pub proof fn lemma_collapse_step(self, e: int, k: int)
        requires
            self.links_ok(),
            self.live_edge(e),
            self.collapse(e).live(k),
        ensures
            ({
                let x = self.diamond(e);
                let w = self.wings(e);
                let m = self.collapse(e);
                let s = self.step(k);
                &&& s != x.h && s != x.t
                &&& m.step(k) == if s == x.hn {
                    w.ol as int
                } else if s == x.hp {
                    w.lq as int
                } else if s == x.tp {
                    w.ro as int
                } else if s == x.tn {
                    w.qr as int
                } else {
                    s
                }
            }),
    {
        let x = self.diamond(e);
        self.lemma_diamond(e);
        self.lemma_wings(e);
        self.lemma_collapse_fields(e);
        self.lemma_collapse_arc(e, k);
        self.lemma_around(k);
        self.lemma_around(self.prev(k));
        self.lemma_around(self.step(k));
        self.lemma_step(k);
    }

    /// Each place of the rings after a collapse is as it should be.
    pub proof fn lemma_collapse_ring_slot(self, e: int, g: Rings, v: int, i: int)
        requires
            self.links_ok(),
            self.rings_ok(g),
            self.live_edge(e),
            self.collapse(e).live_vertex(v),
            0 <= i < self.collapse_rings(e, g).ring[v].len(),
        ensures
            self.collapse(e).ring_slot_ok(self.collapse_rings(e, g), v, i),
    {
        let x = self.diamond(e);
        let m = self.collapse(e);
        let g2 = self.collapse_rings(e, g);
        self.lemma_diamond(e);
        self.lemma_wings(e);
        self.lemma_collapse_fields(e);
        self.lemma_collapse_places(e, g);
        let ph = g.pos[x.h as int];
        let pt = g.pos[x.t as int];
        let php = g.pos[x.hp as int];
        let ptp = g.pos[x.tp as int];
        let dq = g.ring[x.q as int].len() as int;
        let d_o = g.ring[x.o as int].len() as int;
        let r2 = g2.ring[v];
        let k = r2[i];
        // where `k` sat before
        let vo = if v == x.q && i >= dq - 2 { x.o as int } else { v };
        let io = if v == x.q {
            if i < dq - 2 { wrap(pt + 1 + i, dq) } else { wrap(ph + 1 + (i - (dq - 2)), d_o) }
        } else if v == x.l {
            if i < php { i } else { i + 1 }
        } else if v == x.r {
            if i < ptp { i } else { i + 1 }
        } else {
            i
        };
        assert(self.ring_slot_ok(g, vo, io));
        let jo = if io + 1 == g.ring[vo].len() { 0 } else { io + 1 };
        assert(self.ring_slot_ok(g, vo, jo));
        assert(k == g.ring[vo][io]);
        self.lemma_around(k);
        assert(!x.has(k)) by {
            if x.has(k) {
                assert(self.dart_in_ring(g, k));
            }
        }
        assert(m.live(k));
        self.lemma_collapse_arc(e, k);
        self.lemma_collapse_step(e, k);
        if jo + 1 == g.ring[vo].len() {
            assert(self.ring_slot_ok(g, vo, 0));
        } else {
            assert(self.ring_slot_ok(g, vo, jo + 1));
        }
    }

    /// The rings after a collapse witness that the half-edges around each
    /// vertex form one cycle.
    pub proof fn lemma_collapse_rings(self, e: int, g: Rings)
        requires
            self.links_ok(),
            self.rings_ok(g),
            self.live_edge(e),
        ensures
            self.collapse(e).rings_ok(self.collapse_rings(e, g)),
    {
        let m = self.collapse(e);
        let g2 = self.collapse_rings(e, g);
        self.lemma_diamond(e);
        self.lemma_wings(e);
        self.lemma_collapse_fields(e);
        self.lemma_collapse_places(e, g);
        assert forall|k: int| m.live(k) implies #[trigger] m.dart_in_ring(g2, k) by {
            self.lemma_collapse_arc(e, k);
            assert(self.dart_in_ring(g, k));
            assert(self.dart_ok(k));
            assert(self.ring_slot_ok(g, self.origin(k), g.pos[k]));
        }
        assert forall|v: int, i: int| m.live_vertex(v) && 0 <= i < g2.ring[v].len() implies #[trigger] m.ring_slot_ok(
            g2,
            v,
            i,
        ) by {
            self.lemma_collapse_ring_slot(e, g, v, i);
        }
    }

    /// A vertex as it is called after `o` has been merged into `q`.
    pub open spec fn merged(o: int, q: int, v: int) -> int {
        if v == o {
            q
        } else {
            v
        }
    }

    /// A legal collapse keeps the surface well formed.  It removes one
    /// vertex, three edges and two faces, and moves no vertex.  The two edges
    /// that take over from removed ones run from the apexes to `q`; every
    /// other surviving edge keeps its ends, with `q` in the place of `o`.
    pub proof fn lemma_collapse(self, e: int)
        requires
            self.wf(),
            self.live_edge(e),
            self.collapse_legal(e),
        ensures
            self.collapse(e).wf(),
            self.collapse(e).num_vertices() + 1 == self.num_vertices(),
            self.collapse(e).num_edges() + 3 == self.num_edges(),
            self.collapse(e).num_faces() + 2 == self.num_faces(),
            self.collapse(e).euler() == self.euler(),
            self.collapse(e).half_edges.len() == self.half_edges.len(),
            self.collapse(e).vertices.len() == self.vertices.len(),
            self.collapse(e).edges.len() == self.edges.len(),
            self.collapse(e).faces.len() == self.faces.len(),
            forall|v: int| #[trigger] self.collapse(e).live_vertex(v) == (self.live_vertex(v) && v != self.endpoints(e).0),
            forall|d: int| #[trigger] self.collapse(e).live_edge(d) == (self.live_edge(d) && d != e && d
                != self.wings(e).e_ol && d != self.wings(e).e_ro),
            forall|f: int| #[trigger] self.collapse(e).live_face(f) == (self.live_face(f) && f != self.diamond(e).fl
                && f != self.diamond(e).fr),
            forall|v: int| self.collapse(e).live_vertex(v) ==> #[trigger] self.collapse(e).position(v)
                == self.position(v),
            self.collapse(e).endpoints(self.wings(e).e_lq as int) == (self.far_left(e), self.endpoints(e).1),
            self.collapse(e).endpoints(self.wings(e).e_qr as int) == (self.far_right(e), self.endpoints(e).1),
            forall|d: int| self.collapse(e).live_edge(d) && d != self.wings(e).e_lq && d != self.wings(e).e_qr
                ==> #[trigger] self.collapse(e).endpoints(d) == (
                Self::merged(self.endpoints(e).0, self.endpoints(e).1, self.endpoints(d).0),
                Self::merged(self.endpoints(e).0, self.endpoints(e).1, self.endpoints(d).1),
            ),
    {
        let x = self.diamond(e);
        let w = self.wings(e);
        let m = self.collapse(e);
        self.lemma_diamond(e);
        self.lemma_wings(e);
        self.lemma_collapse_fields(e);
        self.lemma_collapse_links(e);
        self.lemma_collapse_arcs(e);
        self.lemma_collapse_rings(e, self.rings());
        let f1 = self.faces.update(x.fl as int, None);
        lemma_count_live_update(self.faces, x.fl as int, None);
        lemma_count_live_update(f1, x.fr as int, None);
        let v1 = self.vertices.update(x.o as int, None);
        let v2 = v1.update(x.q as int, Some(VertexRef { half_edge_idx: w.qr, vertex: self.position(x.q as int) }));
        let v3 = v2.update(x.l as int, Some(VertexRef { half_edge_idx: w.lq, vertex: self.position(x.l as int) }));
        lemma_count_live_update(self.vertices, x.o as int, None);
        lemma_count_live_update(
            v1,
            x.q as int,
            Some(VertexRef { half_edge_idx: w.qr, vertex: self.position(x.q as int) }),
        );
        lemma_count_live_update(
            v2,
            x.l as int,
            Some(VertexRef { half_edge_idx: w.lq, vertex: self.position(x.l as int) }),
        );
        lemma_count_live_update(
            v3,
            x.r as int,
            Some(VertexRef { half_edge_idx: w.ro, vertex: self.position(x.r as int) }),
        );
        let e1 = self.edges.update(e, None);
        let e2 = e1.update(w.e_ol as int, None);
        let e3 = e2.update(w.e_ro as int, None);
        let e4 = e3.update(w.e_lq as int, Some(EdgeRef { half_edge_idx: w.lq }));
        lemma_count_live_update(self.edges, e, None);
        lemma_count_live_update(e1, w.e_ol as int, None);
        lemma_count_live_update(e2, w.e_ro as int, None);
        lemma_count_live_update(e3, w.e_lq as int, Some(EdgeRef { half_edge_idx: w.lq }));
        lemma_count_live_update(e4, w.e_qr as int, Some(EdgeRef { half_edge_idx: w.ro }));
        lemma_count_live_bound(m.vertices);
        lemma_count_live_bound(m.edges);
        lemma_count_live_bound(m.faces);
        self.lemma_collapse_arc(e, w.lq as int);
        self.lemma_collapse_arc(e, w.ro as int);
        assert forall|d: int| m.live_edge(d) && d != w.e_lq && d != w.e_qr implies #[trigger] m.endpoints(d) == (
            Self::merged(x.o as int, x.q as int, self.endpoints(d).0),
            Self::merged(x.o as int, x.q as int, self.endpoints(d).1),
        ) by {
            assert(self.edge_ok(d));
            let k = self.edge_rep(d);
            assert(self.edge_ok(e));
            assert(self.edge_ok(w.e_ol as int));
            assert(self.edge_ok(w.e_ro as int));
            assert(self.edge_ok(w.e_lq as int));
            assert(self.edge_ok(w.e_qr as int));
            assert(self.dart_ok(k));
            assert(!x.has(k));
            self.lemma_collapse_arc(e, k);
        }
    }

    /// For the half-edges in `ks` whose head is not in `skip`, in order: the
    /// edge and the head.
    pub open spec fn edge_notes(self, ks: Seq<int>, skip: Set<int>) -> Seq<(IndexType, IndexType)>
        decreases ks.len(),
    {
        if ks.len() == 0 {
            Seq::empty()
        } else {
            let rest = self.edge_notes(ks.drop_last(), skip);
            let k = ks.last();
            if skip.contains(self.dest(k)) {
                rest
            } else {
                rest.push((self.half_edges[k].edge_idx, self.half_edges[self.next(k)].vertex_idx))
            }
        }
    }

    /// For the half-edges in `ks` whose head is in `hit`, in order: the edge.
    pub open spec fn edge_drops(self, ks: Seq<int>, hit: Set<int>) -> Seq<IndexType>
        decreases ks.len(),
    {
        if ks.len() == 0 {
            Seq::empty()
        } else {
            let rest = self.edge_drops(ks.drop_last(), hit);
            let k = ks.last();
            if hit.contains(self.dest(k)) {
                rest.push(self.half_edges[k].edge_idx)
            } else {
                rest
            }
        }
    }

    /// The half-edges leaving `v`, clockwise from its representative.
    pub open spec fn vertex_ring_back(self, v: int) -> Seq<int> {
        let ring = self.vertex_ring(v);
        Seq::new(
            ring.len(),
            |i: int|
                if i == 0 {
                    ring[0]
                } else {
                    ring[ring.len() - i]
                },
        )
    }

    /// The edges that a collapse of `e` removes, as it reports them: the
    /// edges at `o` that lead to `q` or to an apex, clockwise from the
    /// representative of `o`.
    pub open spec fn collapse_removed(self, e: int) -> Seq<IndexType> {
        let x = self.diamond(e);
        self.edge_drops(self.vertex_ring_back(x.o as int), set![x.q as int, x.l as int, x.r as int])
    }

    /// The edges that end at the merged vertex after a collapse of `e`, each
    /// with its other end, as the collapse reports them: the edges at `q` but
    /// `e`, counter-clockwise from the representative of `q`; then the edges
    /// at `o` that survive, clockwise from the representative of `o`.
    pub open spec fn collapse_modified(self, e: int) -> Seq<(IndexType, IndexType)> {
        let x = self.diamond(e);
        self.edge_notes(self.vertex_ring(x.q as int), set![x.o as int]) + self.edge_notes(
            self.vertex_ring_back(x.o as int),
            set![x.q as int, x.l as int, x.r as int],
        )
    }

    /// The edge of `k` and its head.
    pub open spec fn note_of(self, k: int) -> (IndexType, IndexType) {
        (self.half_edges[k].edge_idx, self.half_edges[self.next(k)].vertex_idx)
    }

    /// What holds of the half-edges that are noted holds of the notes.
    pub proof fn lemma_edge_notes(
        self,
        ks: Seq<int>,
        skip: Set<int>,
        good: spec_fn((IndexType, IndexType)) -> bool,
    )
        requires
            forall|j: int| 0 <= j < ks.len() && !skip.contains(self.dest(ks[j])) ==> good(#[trigger] self.note_of(ks[j])),
        ensures
            forall|i: int| 0 <= i < self.edge_notes(ks, skip).len() ==> good(#[trigger] self.edge_notes(ks, skip)[i]),
        decreases ks.len(),
    {
        if ks.len() > 0 {
            let rest = ks.drop_last();
            assert forall|j: int| 0 <= j < rest.len() && !skip.contains(self.dest(rest[j])) implies good(
                #[trigger] self.note_of(rest[j]),
            ) by {
                assert(rest[j] == ks[j]);
                assert(good(self.note_of(ks[j])));
            }
            self.lemma_edge_notes(rest, skip, good);
            let k = ks.last();
            let notes = self.edge_notes(ks, skip);
            let before = self.edge_notes(rest, skip);
            assert forall|i: int| 0 <= i < notes.len() implies good(#[trigger] notes[i]) by {
                if i < before.len() {
                    assert(notes[i] == before[i]);
                } else {
                    assert(k == ks[ks.len() - 1]);
                    assert(notes[i] == self.note_of(ks[ks.len() - 1]));
                }
            }
        }
    }

    /// What holds of the half-edges whose edges are dropped holds of the
    /// dropped edges.
    pub proof fn lemma_edge_drops(self, ks: Seq<int>, hit: Set<int>, good: spec_fn(IndexType) -> bool)
        requires
            forall|j: int| 0 <= j < ks.len() && hit.contains(self.dest(ks[j])) ==> good((#[trigger] self.note_of(ks[j])).0),
        ensures
            forall|i: int| 0 <= i < self.edge_drops(ks, hit).len() ==> good(#[trigger] self.edge_drops(ks, hit)[i]),
        decreases ks.len(),
    {
        if ks.len() > 0 {
            let rest = ks.drop_last();
            assert forall|j: int| 0 <= j < rest.len() && hit.contains(self.dest(rest[j])) implies good(
                (#[trigger] self.note_of(rest[j])).0,
            ) by {
                assert(rest[j] == ks[j]);
                assert(good(self.note_of(ks[j]).0));
            }
            self.lemma_edge_drops(rest, hit, good);
            let k = ks.last();
            let drops = self.edge_drops(ks, hit);
            let before = self.edge_drops(rest, hit);
            assert forall|i: int| 0 <= i < drops.len() implies good(#[trigger] drops[i]) by {
                if i < before.len() {
                    assert(drops[i] == before[i]);
                } else {
                    assert(k == ks[ks.len() - 1]);
                    assert(drops[i] == self.note_of(ks[ks.len() - 1]).0);
                }
            }
        }
    }

    /// The edges that a legal collapse reports as removed were live, and
    /// are not afterwards; those it reports as modified are live afterwards
    /// and end at live vertices.
    pub proof fn lemma_collapse_reports(self, e: int)
        requires
            self.wf(),
            self.live_edge(e),
            self.collapse_legal(e),
        ensures
            forall|i: int|
                0 <= i < self.collapse_removed(e).len() ==> self.live_edge(#[trigger] self.collapse_removed(e)[i] as int)
                    && !self.collapse(e).live_edge(self.collapse_removed(e)[i] as int),
            forall|i: int|
                0 <= i < self.collapse_modified(e).len() ==> self.collapse(e).live_edge(
                    (#[trigger] self.collapse_modified(e)[i]).0 as int,
                ) && self.collapse(e).live_vertex(self.collapse_modified(e)[i].1 as int),
    {
        let x = self.diamond(e);
        let w = self.wings(e);
        let m = self.collapse(e);
        self.lemma_diamond(e);
        self.lemma_wings(e);
        self.lemma_collapse_fields(e);
        self.lemma_vertex_ring(x.o as int);
        self.lemma_vertex_ring(x.q as int);
        let ring_o = self.vertex_ring(x.o as int);
        let back_o = self.vertex_ring_back(x.o as int);
        let ring_q = self.vertex_ring(x.q as int);
        let hit = set![x.q as int, x.l as int, x.r as int];
        let skip = set![x.o as int];
        let was_live = |d: IndexType| self.live_edge(d as int) && !m.live_edge(d as int);
        let stays = |p: (IndexType, IndexType)| m.live_edge(p.0 as int) && m.live_vertex(p.1 as int);
        assert(self.edge_ok(e));
        assert(self.edge_ok(w.e_ol as int));
        assert(self.edge_ok(w.e_ro as int));
        assert forall|j: int| 0 <= j < back_o.len() && hit.contains(self.dest(back_o[j])) implies was_live(
            (#[trigger] self.note_of(back_o[j])).0,
        ) by {
            let i = if j == 0 { 0 } else { ring_o.len() - j };
            assert(self.ring_place_ok(x.o as int, i));
            let k = back_o[j];
            self.lemma_around(k);
            if self.dest(k) == x.q {
                self.lemma_arc_unique(k, x.h as int);
            } else if self.dest(k) == x.l {
                self.lemma_arc_unique(k, w.ol as int);
            } else {
                self.lemma_arc_unique(k, x.tn as int);
            }
        }
        self.lemma_edge_drops(back_o, hit, was_live);
        assert forall|j: int| 0 <= j < back_o.len() && !hit.contains(self.dest(back_o[j])) implies stays(
            #[trigger] self.note_of(back_o[j]),
        ) by {
            let i = if j == 0 { 0 } else { ring_o.len() - j };
            assert(self.ring_place_ok(x.o as int, i));
            let k = back_o[j];
            self.lemma_around(k);
            self.lemma_around(self.next(k));
            let d = self.edge_of(k);
            assert(self.dart_ok(k));
        }
        self.lemma_edge_notes(back_o, hit, stays);
        assert forall|j: int| 0 <= j < ring_q.len() && !skip.contains(self.dest(ring_q[j])) implies stays(
            #[trigger] self.note_of(ring_q[j]),
        ) by {
            assert(self.ring_place_ok(x.q as int, j));
            let k = ring_q[j];
            self.lemma_around(k);
            self.lemma_around(self.next(k));
            assert(self.dart_ok(k));
        }
        self.lemma_edge_notes(ring_q, skip, stays);
    }

    /// An edge that dropped every half-edge in `ks` whose head is in `hit`
    /// had dropped is among the dropped edges.
    pub proof fn lemma_edge_drops_has(self, ks: Seq<int>, hit: Set<int>, j: int)
        requires
            0 <= j < ks.len(),
            hit.contains(self.dest(ks[j])),
        ensures
            self.edge_drops(ks, hit).contains(self.half_edges[ks[j]].edge_idx),
        decreases ks.len(),
    {
        let rest = ks.drop_last();
        let drops = self.edge_drops(ks, hit);
        let before = self.edge_drops(rest, hit);
        if j == ks.len() - 1 {
            assert(drops[drops.len() - 1] == self.half_edges[ks[j]].edge_idx);
        } else {
            assert(rest[j] == ks[j]);
            self.lemma_edge_drops_has(rest, hit, j);
            let i = choose|i: int| 0 <= i < before.len() && before[i] == self.half_edges[ks[j]].edge_idx;
            assert(drops[i] == before[i]);
        }
    }

    /// Every edge that a legal collapse removes is reported as removed.
    pub proof fn lemma_removed_complete(self, e: int, d: int)
        requires
            self.wf(),
            self.live_edge(e),
            self.collapse_legal(e),
            self.live_edge(d),
            !self.collapse(e).live_edge(d),
        ensures
            self.collapse_removed(e).contains(d as IndexType),
    {
        let x = self.diamond(e);
        let w = self.wings(e);
        self.lemma_diamond(e);
        self.lemma_wings(e);
        self.lemma_collapse_fields(e);
        self.lemma_vertex_ring(x.o as int);
        let ring_o = self.vertex_ring(x.o as int);
        let back_o = self.vertex_ring_back(x.o as int);
        let hit = set![x.q as int, x.l as int, x.r as int];
        let k = if d == e { x.h as int } else if d == w.e_ol { w.ol as int } else { x.tn as int };
        assert(ring_o.contains(k));
        let i = choose|i: int| 0 <= i < ring_o.len() && ring_o[i] == k;
        let j = if i == 0 { 0 } else { ring_o.len() - i };
        assert(back_o[j] == k);
        self.lemma_edge_drops_has(back_o, hit, j);
    }
}

} // verus!
