//! The edge flip on the store.
use vstd::prelude::*;
use super::HalfEdge;
use super::super::diamond::Diamond;
use super::super::model::FaceRef;
use super::super::model::IndexType;
use super::super::model::VertexRef;

verus! {

impl<P: Copy> HalfEdge<P> {
    /// The two triangles at a live edge.
    pub(crate) fn diamond(&self, key: IndexType) -> (x: Diamond)
        requires
            self@.links_ok(),
            self@.live_edge(key as int),
        ensures
            x == self@.diamond(key as int),
            self@.diamond_ok(key as int, x),
    {
        proof {
            self@.lemma_diamond(key as int);
        }
        let h: IndexType = self.edge_rep(key);
        let t: IndexType = self.twin_of(h);
        let hn: IndexType = self.next_of(h);
        let hp: IndexType = self.next_of(hn);
        let tn: IndexType = self.next_of(t);
        let tp: IndexType = self.next_of(tn);
        Diamond {
            h,
            t,
            hn,
            hp,
            tn,
            tp,
            o: self.origin_of(h),
            q: self.origin_of(t),
            l: self.origin_of(hp),
            r: self.origin_of(tp),
            fl: self.face_of(h),
            fr: self.face_of(t),
        }
    }

    /// Turns a live edge inside the two triangles that share it, so that it
    /// joins their apexes.  The flip is refused, and nothing changes, when the
    /// apexes are joined by an edge already.
    pub fn flip_edge(&mut self, key: IndexType) -> (r: Option<()>)
        requires
            old(self).wf(),
            old(self)@.live_edge(key as int),
        ensures
            final(self).wf(),
            r is Some <==> old(self)@.flip_legal(key as int),
            r is Some ==> final(self)@ == old(self)@.flip(key as int),
            r is None ==> *final(self) == *old(self),
            final(self)@.num_vertices() == old(self)@.num_vertices(),
            final(self)@.num_edges() == old(self)@.num_edges(),
            final(self)@.num_faces() == old(self)@.num_faces(),
            final(self)@.euler() == old(self)@.euler(),
    {
        let x: Diamond = self.diamond(key);
        if self.are_adjacent(x.l, x.r) {
            return None;
        }
        proof {
            self@.lemma_flip(key as int);
        }
        let ghost before = self@;
        let pos_q: P = self.get_position(x.q);
        let pos_o: P = self.get_position(x.o);

        self.half_edge_refs[x.hn as usize].face_idx = x.fr;
        self.half_edge_refs[x.tn as usize].face_idx = x.fl;

        self.half_edge_refs[x.hn as usize].next_idx = x.t;
        self.half_edge_refs[x.tn as usize].next_idx = x.h;

        self.half_edge_refs[x.t as usize].vertex_idx = x.l;
        self.half_edge_refs[x.h as usize].vertex_idx = x.r;

        self.half_edge_refs[x.t as usize].next_idx = x.tp;
        self.half_edge_refs[x.h as usize].next_idx = x.hp;

        self.half_edge_refs[x.tp as usize].next_idx = x.hn;
        self.half_edge_refs[x.hp as usize].next_idx = x.tn;

        self.face_refs[x.fr as usize] = Some(FaceRef { half_edge_idx: x.hn });
        self.face_refs[x.fl as usize] = Some(FaceRef { half_edge_idx: x.tn });

        self.vertex_refs[x.q as usize] = Some(VertexRef { half_edge_idx: x.hn, vertex: pos_q });
        self.vertex_refs[x.o as usize] = Some(VertexRef { half_edge_idx: x.tn, vertex: pos_o });

        proof {
            let after = before.flip(key as int);
            assert(self@.half_edges =~= after.half_edges);
            assert(self@.vertices =~= after.vertices);
            assert(self@.faces =~= after.faces);
            assert(self@ == after);
        }
        Some(())
    }
}

} // verus!
