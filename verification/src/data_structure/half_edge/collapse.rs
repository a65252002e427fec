//! The edge collapse on the store.
use vstd::prelude::*;
use super::as_ints;
use super::HalfEdge;
use super::super::collapse::Wings;
use super::super::diamond::Diamond;
use super::super::model::EdgeRef;
use super::super::model::HalfEdgeRef;
use super::super::model::IndexType;
use super::super::model::VertexRef;

verus! {

impl<P: Copy> HalfEdge<P> {
    /// The half-edges and edges just outside the two triangles at a live edge.
    pub(crate) fn wings(&self, key: IndexType, x: &Diamond) -> (w: Wings)
        requires
            self@.links_ok(),
            self@.live_edge(key as int),
            *x == self@.diamond(key as int),
        ensures
            w == self@.wings(key as int),
            self@.wings_ok(key as int, *x, w),
    {
        proof {
            self@.lemma_diamond(key as int);
            self@.lemma_wings(key as int);
        }
        Wings {
            ol: self.twin_of(x.hp),
            lq: self.twin_of(x.hn),
            qr: self.twin_of(x.tp),
            ro: self.twin_of(x.tn),
            e_ol: self.edge_of(x.hp),
            e_lq: self.edge_of(x.hn),
            e_qr: self.edge_of(x.tp),
            e_ro: self.edge_of(x.tn),
        }
    }

    /// Whether a live edge can be collapsed.
    pub fn can_collapse_edge(&self, key: IndexType) -> (r: bool)
        requires
            self.wf(),
            self@.live_edge(key as int),
        ensures
            r == self@.collapse_legal(key as int),
    {
        let x: Diamond = self.diamond(key);
        if self.degree(x.l) <= 3 || self.degree(x.r) <= 3 {
            return false;
        }
        let ring_o: Vec<IndexType> = self.vertex_half_edges(x.o);
        let ghost ring = self@.vertex_ring(x.o as int);
        proof {
            self@.lemma_vertex_ring(x.o as int);
            assert(as_ints(ring_o@).len() == ring_o@.len());
        }
        let mut i: usize = 0;
        while i < ring_o.len()
            invariant
                self.wf(),
                self@.live_edge(key as int),
                x == self@.diamond(key as int),
                self@.diamond_ok(key as int, x),
                ring == self@.vertex_ring(x.o as int),
                as_ints(ring_o@) == ring,
                ring_o@.len() == ring.len(),
                i <= ring_o@.len(),
                forall|j: int| 0 <= j < ring.len() ==> #[trigger] self@.ring_place_ok(x.o as int, j),
                forall|j: int|
                    0 <= j < i ==> {
                        let v = #[trigger] self@.dest(ring[j]);
                        v == x.l || v == x.r || !self@.adjacent(x.q as int, v)
                    },
            decreases ring_o.len() - i,
        {
            let k: IndexType = ring_o[i];
            proof {
                assert(as_ints(ring_o@)[i as int] == k as int);
                assert(self@.ring_place_ok(x.o as int, i as int));
                self@.lemma_around(k as int);
            }
            let v: IndexType = self.origin_of(self.next_of(k));
            if v != x.l && v != x.r && self.are_adjacent(x.q, v) {
                proof {
                    self@.lemma_adjacent(k as int);
                    assert(self@.adjacent(x.o as int, v as int) && self@.adjacent(x.q as int, v as int));
                }
                return false;
            }
            i = i + 1;
        }
        proof {
            assert forall|v: int| #[trigger]
                self@.adjacent(x.o as int, v) && self@.adjacent(x.q as int, v) implies v == x.l || v == x.r by {
                let k = choose|k: int| self@.live(k) && #[trigger] self@.arc(k) == (x.o as int, v);
                assert(ring.contains(k));
                let j = choose|j: int| 0 <= j < ring.len() && ring[j] == k;
                assert(self@.dest(ring[j]) == v);
            }
        }
        true
    }

    /// Joins two half-edges as twins on one edge and makes the second the
    /// representative of that edge and of its origin.
    fn combine_twins(
        &mut self,
        first: IndexType,
        second: IndexType,
        edge_idx: IndexType,
        vertex_idx: IndexType,
    )
        requires
            (first as int) < old(self)@.half_edges.len(),
            (second as int) < old(self)@.half_edges.len(),
            old(self)@.live_edge(edge_idx as int),
            old(self)@.live_vertex(vertex_idx as int),
        ensures
            final(self)@ == old(self)@.with_twins(first, second, edge_idx, vertex_idx),
            final(self).num_removed_vertices == old(self).num_removed_vertices,
            final(self).num_removed_edges == old(self).num_removed_edges,
            final(self).num_removed_faces == old(self).num_removed_faces,
    {
        let p: P = self.get_position(vertex_idx);
        self.vertex_refs[vertex_idx as usize] = Some(VertexRef { half_edge_idx: second, vertex: p });
        self.edge_refs[edge_idx as usize] = Some(EdgeRef { half_edge_idx: second });
        self.half_edge_refs[first as usize].twin_idx = Some(second);
        self.half_edge_refs[first as usize].edge_idx = edge_idx;
        self.half_edge_refs[second as usize].twin_idx = Some(first);
        self.half_edge_refs[second as usize].edge_idx = edge_idx;
        proof {
            let after = old(self)@.with_twins(first, second, edge_idx, vertex_idx);
            assert(self@.half_edges =~= after.half_edges);
            assert(self@.vertices =~= after.vertices);
            assert(self@.edges =~= after.edges);
        }
    }

    /// Writes to `out`, for each of the half-edges `ring` around the live
    /// vertex `v` whose head is not `skip`, the edge and the head.
    fn note_edges_around(&self, v: IndexType, ring: &Vec<IndexType>, skip: IndexType, out: &mut Vec<(IndexType, IndexType)>)
        requires
            self.wf(),
            self@.live_vertex(v as int),
            as_ints(ring@) == self@.vertex_ring(v as int),
            old(out)@.len() == 0,
        ensures
            final(out)@ == self@.edge_notes(self@.vertex_ring(v as int), set![skip as int]),
    {
        let ghost ks = self@.vertex_ring(v as int);
        proof {
            self@.lemma_vertex_ring(v as int);
            assert(as_ints(ring@).len() == ring@.len());
            assert(out@ =~= self@.edge_notes(ks.take(0), set![skip as int]));
        }
        let mut i: usize = 0;
        while i < ring.len()
            invariant
                self.wf(),
                self@.live_vertex(v as int),
                ks == self@.vertex_ring(v as int),
                as_ints(ring@) == ks,
                ring@.len() == ks.len(),
                i <= ring@.len(),
                forall|j: int| 0 <= j < ks.len() ==> #[trigger] self@.ring_place_ok(v as int, j),
                out@ == self@.edge_notes(ks.take(i as int), set![skip as int]),
            decreases ring.len() - i,
        {
            let k: IndexType = ring[i];
            proof {
                assert(as_ints(ring@)[i as int] == k as int);
                assert(self@.ring_place_ok(v as int, i as int));
                self@.lemma_around(k as int);
                assert(ks.take(i + 1).drop_last() =~= ks.take(i as int));
                assert(ks.take(i + 1).last() == k as int);
            }
            let head: IndexType = self.origin_of(self.next_of(k));
            if head != skip {
                out.push((self.edge_of(k), head));
            }
            i = i + 1;
        }
        proof {
            assert(ks.take(ks.len() as int) =~= ks);
        }
    }

    /// Collapses a live edge into its second end, if that keeps the surface
    /// well formed; otherwise nothing changes and the result is `None`.
    ///
    /// On success the result is the vertex that stays.  `removed_edges` then
    /// holds the three edges that went, and `modified_edges` every edge that
    /// now ends at the vertex that stays, each with its other end.  Both
    /// lists are emptied first.
    pub fn collapse_edge(
        &mut self,
        key: IndexType,
        modified_edges: &mut Vec<(IndexType, IndexType)>,
        removed_edges: &mut Vec<IndexType>,
    ) -> (r: Option<IndexType>)
        requires
            old(self).wf(),
            old(self)@.live_edge(key as int),
        ensures
            final(self).wf(),
            r is Some <==> old(self)@.collapse_legal(key as int),
            r is Some ==> r == Some(old(self)@.diamond(key as int).q),
            r is Some ==> final(self)@ == old(self)@.collapse(key as int),
            r is Some ==> final(self)@.num_vertices() + 1 == old(self)@.num_vertices(),
            r is Some ==> final(self)@.num_edges() + 3 == old(self)@.num_edges(),
            r is Some ==> final(self)@.num_faces() + 2 == old(self)@.num_faces(),
            final(self)@.euler() == old(self)@.euler(),
            r is Some ==> final(removed_edges)@ == old(self)@.collapse_removed(key as int),
            r is Some ==> final(modified_edges)@ == old(self)@.collapse_modified(key as int),
            r is None ==> *final(self) == *old(self),
            r is None ==> final(removed_edges)@.len() == 0 && final(modified_edges)@.len() == 0,
    {
        modified_edges.clear();
        removed_edges.clear();
        if !self.can_collapse_edge(key) {
            return None;
        }
        let x: Diamond = self.diamond(key);
        let w: Wings = self.wings(key, &x);
        let ring_q: Vec<IndexType> = self.vertex_half_edges(x.q);
        let ring_o: Vec<IndexType> = self.vertex_half_edges(x.o);
        self.note_edges_around(x.q, &ring_q, x.o, modified_edges);

        let ghost before = self@;
        let ghost ring = before.vertex_ring(x.o as int);
        let ghost back = before.vertex_ring_back(x.o as int);
        let ghost hit = set![x.q as int, x.l as int, x.r as int];
        let ghost noted = modified_edges@;
        let ghost ih: int;
        let ghost iol: int;
        let ghost itn: int;
        proof {
            before.lemma_collapse(key as int);
            before.lemma_collapse_fields(key as int);
            before.lemma_vertex_ring(x.o as int);
            assert(as_ints(ring_o@).len() == ring_o@.len());
            assert(ring.contains(x.h as int));
            assert(ring.contains(w.ol as int));
            assert(ring.contains(x.tn as int));
            let jh = choose|j: int| 0 <= j < ring.len() && ring[j] == x.h as int;
            let jol = choose|j: int| 0 <= j < ring.len() && ring[j] == w.ol as int;
            let jtn = choose|j: int| 0 <= j < ring.len() && ring[j] == x.tn as int;
            ih = if jh == 0 { 0 } else { ring.len() - jh };
            iol = if jol == 0 { 0 } else { ring.len() - jol };
            itn = if jtn == 0 { 0 } else { ring.len() - jtn };
            assert(back[ih] == x.h as int);
            assert(back[iol] == w.ol as int);
            assert(back[itn] == x.tn as int);
            assert forall|j: int| 0 <= j < ring.len() implies 0 <= #[trigger] back[j] < before.half_edges.len() by {
                let ij = if j == 0 { 0 } else { ring.len() - j };
                assert(before.ring_place_ok(x.o as int, ij));
            }
            assert forall|a: int, b: int| 0 <= a < ring.len() && 0 <= b < ring.len() && a != b implies #[trigger] back[a]
                != #[trigger] back[b] by {
                let ia = if a == 0 { 0 } else { ring.len() - a };
                let ib = if b == 0 { 0 } else { ring.len() - b };
                assert(ring[ia] != ring[ib]);
            }
            assert(removed_edges@ =~= before.edge_drops(back.take(0), hit));
            assert(before.edge_notes(back.take(0), hit) =~= Seq::empty());
            assert(modified_edges@ =~= noted + before.edge_notes(back.take(0), hit));
        }

        let len: usize = ring_o.len();
        let mut s: usize = 0;
        while s < len
            invariant
                before.wf(),
                before.live_edge(key as int),
                before.collapse_legal(key as int),
                x == before.diamond(key as int),
                before.diamond_ok(key as int, x),
                w == before.wings(key as int),
                before.wings_ok(key as int, x, w),
                ring == before.vertex_ring(x.o as int),
                back == before.vertex_ring_back(x.o as int),
                hit == set![x.q as int, x.l as int, x.r as int],
                as_ints(ring_o@) == ring,
                len == ring_o@.len(),
                len == ring.len(),
                len == back.len(),
                s <= len,
                ring.no_duplicates(),
                forall|j: int| 0 <= j < ring.len() ==> #[trigger] before.ring_place_ok(x.o as int, j),
                0 <= ih < len && back[ih] == x.h as int,
                0 <= iol < len && back[iol] == w.ol as int,
                0 <= itn < len && back[itn] == x.tn as int,
                self.half_edge_refs@.len() == before.half_edges.len(),
                forall|j: int| 0 <= j < len ==> 0 <= #[trigger] back[j] < before.half_edges.len(),
                forall|a: int, b: int| 0 <= a < len && 0 <= b < len && a != b ==> #[trigger] back[a] != #[trigger] back[b],
                forall|j: int|
                    0 <= j < s ==> self.half_edge_refs@[#[trigger] back[j]] == (HalfEdgeRef {
                        vertex_idx: x.q,
                        ..before.half_edges[back[j]]
                    }),
                forall|j: int| s <= j < len ==> self.half_edge_refs@[#[trigger] back[j]] == before.half_edges[back[j]],
                forall|k: int|
                    0 <= k < before.half_edges.len() && !(before.live(k) && before.origin(k) == x.o)
                        ==> #[trigger] self.half_edge_refs@[k] == before.half_edges[k],
                self.vertex_refs@ == before.vertices,
                self.face_refs@ == before.faces,
                self.edge_refs@.len() == before.edges.len(),
                forall|d: int|
                    0 <= d < before.edges.len() && d != key && d != w.e_ol && d != w.e_ro
                        ==> #[trigger] self.edge_refs@[d] == before.edges[d],
                self.edge_refs@[key as int] == if ih < s { None } else { before.edges[key as int] },
                self.edge_refs@[w.e_ol as int] == if iol < s { None } else { before.edges[w.e_ol as int] },
                self.edge_refs@[w.e_ro as int] == if itn < s { None } else { before.edges[w.e_ro as int] },
                self.num_removed_vertices == old(self).num_removed_vertices,
                self.num_removed_edges == old(self).num_removed_edges,
                self.num_removed_faces == old(self).num_removed_faces,
                removed_edges@ == before.edge_drops(back.take(s as int), hit),
                modified_edges@ == noted + before.edge_notes(back.take(s as int), hit),
            decreases len - s,
        {
            let i: usize = if s == 0 { 0 } else { len - s };
            let k: IndexType = ring_o[i];
            proof {
                assert(as_ints(ring_o@)[i as int] == k as int);
                assert(back[s as int] == k as int);
                assert(before.ring_place_ok(x.o as int, i as int));
                before.lemma_around(k as int);
                assert(back.take(s + 1).drop_last() =~= back.take(s as int));
                assert(back.take(s + 1).last() == k as int);
                if before.dest(k as int) == x.q {
                    before.lemma_arc_unique(k as int, x.h as int);
                }
                if before.dest(k as int) == x.l {
                    before.lemma_arc_unique(k as int, w.ol as int);
                }
                if before.dest(k as int) == x.r {
                    before.lemma_arc_unique(k as int, x.tn as int);
                }
            }
            let nx: IndexType = self.half_edge_refs[k as usize].next_idx;
            let head: IndexType = self.half_edge_refs[nx as usize].vertex_idx;
            let edge: IndexType = self.half_edge_refs[k as usize].edge_idx;
            if head == x.q || head == x.l || head == x.r {
                removed_edges.push(edge);
                self.edge_refs[edge as usize] = None;
            } else {
                modified_edges.push((edge, head));
            }
            self.half_edge_refs[k as usize].vertex_idx = x.q;
            proof {
                assert(modified_edges@ =~= noted + before.edge_notes(back.take(s + 1), hit));
            }
            s = s + 1;
        }

        let pos_q: P = self.get_position_raw(x.q);
        self.vertex_refs[x.o as usize] = None;
        self.num_removed_vertices = self.num_removed_vertices + 1;
        self.vertex_refs[x.q as usize] = Some(VertexRef { half_edge_idx: w.qr, vertex: pos_q });
        self.num_removed_edges = self.num_removed_edges + 3;
        self.face_refs[x.fl as usize] = None;
        self.face_refs[x.fr as usize] = None;
        self.num_removed_faces = self.num_removed_faces + 2;

        self.combine_twins(w.ol, w.lq, w.e_lq, x.l);
        self.combine_twins(w.qr, w.ro, w.e_qr, x.r);

        proof {
            let after = before.collapse(key as int);
            assert(back.take(len as int) =~= back);
            assert forall|k: int| 0 <= k < before.half_edges.len() implies #[trigger] self@.half_edges[k]
                == after.half_edges[k] by {
                if before.live(k) && before.origin(k) == x.o {
                    assert(ring.contains(k));
                    let j = choose|j: int| 0 <= j < ring.len() && ring[j] == k;
                    let b = if j == 0 { 0 } else { len - j };
                    assert(back[b] == k);
                }
            }
            assert(self@.half_edges =~= after.half_edges);
            assert(self@.vertices =~= after.vertices);
            assert(self@.edges =~= after.edges);
            assert(self@.faces =~= after.faces);
            assert(self@ == after);
        }
        Some(x.q)
    }
}

} // verus!
