//! The edge split on the store.
use vstd::prelude::*;
use super::HalfEdge;
use super::super::diamond::Diamond;
use super::super::model::EdgeRef;
use super::super::model::FaceRef;
use super::super::model::HalfEdgeRef;
use super::super::model::IndexType;
use super::super::model::VertexRef;

verus! {

impl<P: Copy> HalfEdge<P> {
    /// Whether the slot arrays can take what one more split appends.
    pub fn has_room_for_split(&self) -> (r: bool)
        ensures
            r == self@.room_for_split(),
    {
        self.half_edge_refs.len() <= 0xffff_fff9 && self.vertex_refs.len() <= 0xffff_fffe
            && self.edge_refs.len() <= 0xffff_fffc && self.face_refs.len() <= 0xffff_fffd
    }

    /// Whether the slot arrays can take what `k` more splits append.
    pub fn has_room_for_splits(&self, k: usize) -> (r: bool)
        ensures
            r == self@.room_for_splits(k as int),
    {
        let limit: u64 = 0xffff_ffff;
        let k: u64 = k as u64;
        let nh: u64 = self.half_edge_refs.len() as u64;
        let nv: u64 = self.vertex_refs.len() as u64;
        let ne: u64 = self.edge_refs.len() as u64;
        let nf: u64 = self.face_refs.len() as u64;
        k <= limit && nh <= limit && nv <= limit && ne <= limit && nf <= limit && nh + 6 * k <= limit && nv + k
            <= limit && ne + 3 * k <= limit && nf + 2 * k <= limit
    }

    /// Puts a new vertex on a live edge and joins it to the apexes of the
    /// two triangles at the edge, which become four.
    ///
    /// Returns the new vertex and the four edges at it: the one to the left
    /// apex, the one to the right apex, the split edge itself (which now ends
    /// at the new vertex instead of its first end), and the one to the
    /// former first end.  The new vertex starts at the position of that
    /// first end.
    pub fn split_edge(&mut self, key: IndexType) -> (r: (IndexType, [IndexType; 4]))
        requires
            old(self).wf(),
            old(self)@.live_edge(key as int),
            old(self)@.room_for_split(),
        ensures
            final(self).wf(),
            final(self)@ == old(self)@.split(key as int),
            final(self)@.num_vertices() == old(self)@.num_vertices() + 1,
            final(self)@.num_edges() == old(self)@.num_edges() + 3,
            final(self)@.num_faces() == old(self)@.num_faces() + 2,
            final(self)@.euler() == old(self)@.euler(),
            r.0 == old(self)@.fresh().m,
            r.1[0] == old(self)@.fresh().e_l,
            r.1[1] == old(self)@.fresh().e_r,
            r.1[2] == key,
            r.1[3] == old(self)@.fresh().e_o,
    {
        let x: Diamond = self.diamond(key);
        proof {
            self@.lemma_split(key as int);
            self@.lemma_split_fields(key as int);
        }
        let ghost before = self@;

        let n: usize = self.half_edge_refs.len();
        let m_r: IndexType = n as IndexType;
        let r_m: IndexType = (n + 1) as IndexType;
        let m_o: IndexType = (n + 2) as IndexType;
        let o_m: IndexType = (n + 3) as IndexType;
        let m_l: IndexType = (n + 4) as IndexType;
        let l_m: IndexType = (n + 5) as IndexType;

        let pos_o: P = self.get_position(x.o);
        let pos_q: P = self.get_position(x.q);
        self.vertex_refs[x.o as usize] = Some(VertexRef { half_edge_idx: x.tn, vertex: pos_o });
        self.vertex_refs[x.q as usize] = Some(VertexRef { half_edge_idx: x.hn, vertex: pos_q });

        let m: IndexType = self.vertex_refs.len() as IndexType;
        self.vertex_refs.push(Some(VertexRef { half_edge_idx: x.h, vertex: pos_o }));

        let ne: usize = self.edge_refs.len();
        let e_r: IndexType = ne as IndexType;
        let e_o: IndexType = (ne + 1) as IndexType;
        let e_l: IndexType = (ne + 2) as IndexType;
        self.edge_refs.push(Some(EdgeRef { half_edge_idx: m_r }));
        self.edge_refs.push(Some(EdgeRef { half_edge_idx: m_o }));
        self.edge_refs.push(Some(EdgeRef { half_edge_idx: m_l }));

        let nf: usize = self.face_refs.len();
        let f_l: IndexType = nf as IndexType;
        let f_r: IndexType = (nf + 1) as IndexType;
        self.face_refs[x.fr as usize] = Some(FaceRef { half_edge_idx: x.t });
        self.face_refs[x.fl as usize] = Some(FaceRef { half_edge_idx: x.h });
        self.face_refs.push(Some(FaceRef { half_edge_idx: m_l }));
        self.face_refs.push(Some(FaceRef { half_edge_idx: m_o }));

        self.half_edge_refs[x.h as usize].vertex_idx = m;
        self.half_edge_refs[x.t as usize].next_idx = m_r;

        self.half_edge_refs[x.tn as usize].face_idx = f_r;
        self.half_edge_refs[x.tn as usize].next_idx = r_m;
        self.half_edge_refs[x.hp as usize].face_idx = f_l;
        self.half_edge_refs[x.hp as usize].next_idx = o_m;

        self.half_edge_refs[x.hn as usize].next_idx = l_m;

        self.half_edge_refs.push(
            HalfEdgeRef { twin_idx: Some(r_m), next_idx: x.tp, vertex_idx: m, edge_idx: e_r, face_idx: x.fr },
        );
        self.half_edge_refs.push(
            HalfEdgeRef { twin_idx: Some(m_r), next_idx: m_o, vertex_idx: x.r, edge_idx: e_r, face_idx: f_r },
        );
        self.half_edge_refs.push(
            HalfEdgeRef { twin_idx: Some(o_m), next_idx: x.tn, vertex_idx: m, edge_idx: e_o, face_idx: f_r },
        );
        self.half_edge_refs.push(
            HalfEdgeRef { twin_idx: Some(m_o), next_idx: m_l, vertex_idx: x.o, edge_idx: e_o, face_idx: f_l },
        );
        self.half_edge_refs.push(
            HalfEdgeRef { twin_idx: Some(l_m), next_idx: x.hp, vertex_idx: m, edge_idx: e_l, face_idx: f_l },
        );
        self.half_edge_refs.push(
            HalfEdgeRef { twin_idx: Some(m_l), next_idx: x.h, vertex_idx: x.l, edge_idx: e_l, face_idx: x.fl },
        );

        proof {
            let after = before.split(key as int);
            assert(self@.half_edges =~= after.half_edges);
            assert(self@.vertices =~= after.vertices);
            assert(self@.edges =~= after.edges);
            assert(self@.faces =~= after.faces);
            assert(self@ == after);
        }
        (m, [e_l, e_r, key, e_o])
    }
}

} // verus!
