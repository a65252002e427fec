//! The two triangles at an edge.
use vstd::prelude::*;
use super::model::IndexType;
use super::model::MeshModel;

verus! {
/// The two triangles at an edge: the edge's representative half-edge `h`
/// from `o` to `q`, its twin `t`, the other two half-edges of each face, the
/// apexes `l` (on the side of `h`) and `r` (on the side of `t`), and the two
/// faces.
///
/// ```text
///            l
///          /   \
///      hp /     \ hn
///        /  fl   \
///       o ---h--> q
///        \  fr   /
///      tn \     / tp
///          \   /
///            r
/// ```
#[derive(Clone, Copy, Debug)]
pub struct Diamond {
    pub h: IndexType,
    pub t: IndexType,
    pub hn: IndexType,
    pub hp: IndexType,
    pub tn: IndexType,
    pub tp: IndexType,
    pub o: IndexType,
    pub q: IndexType,
    pub l: IndexType,
    pub r: IndexType,
    pub fl: IndexType,
    pub fr: IndexType,
}

impl Diamond {
    /// `x` is one of the six half-edges of the two triangles.
    pub open spec fn has(self, x: int) -> bool {
        x == self.h || x == self.t || x == self.hn || x == self.hp || x == self.tn || x == self.tp
    }
}

impl<P> MeshModel<P> {
    /// The two triangles at edge `e`.
    pub open spec fn diamond(self, e: int) -> Diamond {
        let h = self.edges[e].unwrap().half_edge_idx;
        let t = self.half_edges[h as int].twin_idx.unwrap();
        let hn = self.half_edges[h as int].next_idx;
        let hp = self.half_edges[hn as int].next_idx;
        let tn = self.half_edges[t as int].next_idx;
        let tp = self.half_edges[tn as int].next_idx;
        Diamond {
            h,
            t,
            hn,
            hp,
            tn,
            tp,
            o: self.half_edges[h as int].vertex_idx,
            q: self.half_edges[t as int].vertex_idx,
            l: self.half_edges[hp as int].vertex_idx,
            r: self.half_edges[tp as int].vertex_idx,
            fl: self.half_edges[h as int].face_idx,
            fr: self.half_edges[t as int].face_idx,
        }
    }

    /// The six half-edges, four vertices and two faces at a live edge are
    /// live, linked as drawn, and pairwise distinct.
    pub open spec fn diamond_ok(self, e: int, x: Diamond) -> bool {
        &&& x == self.diamond(e)
        &&& self.live(x.h as int) && self.live(x.t as int) && self.live(x.hn as int)
        &&& self.live(x.hp as int) && self.live(x.tn as int) && self.live(x.tp as int)
        &&& self.dart_ok(x.h as int) && self.dart_ok(x.t as int) && self.dart_ok(x.hn as int)
        &&& self.dart_ok(x.hp as int) && self.dart_ok(x.tn as int) && self.dart_ok(x.tp as int)
        &&& self.edge_rep(e) == x.h && self.twin(x.h as int) == x.t && self.twin(x.t as int) == x.h
        &&& self.next(x.h as int) == x.hn && self.next(x.hn as int) == x.hp && self.next(x.hp as int) == x.h
        &&& self.next(x.t as int) == x.tn && self.next(x.tn as int) == x.tp && self.next(x.tp as int) == x.t
        &&& self.origin(x.h as int) == x.o && self.origin(x.hn as int) == x.q && self.origin(x.hp as int) == x.l
        &&& self.origin(x.t as int) == x.q && self.origin(x.tn as int) == x.o && self.origin(x.tp as int) == x.r
        &&& self.face_of(x.h as int) == x.fl && self.face_of(x.hn as int) == x.fl && self.face_of(x.hp as int) == x.fl
        &&& self.face_of(x.t as int) == x.fr && self.face_of(x.tn as int) == x.fr && self.face_of(x.tp as int) == x.fr
        &&& self.edge_of(x.h as int) == e && self.edge_of(x.t as int) == e
        &&& self.live_face(x.fl as int) && self.live_face(x.fr as int) && x.fl != x.fr
        &&& self.live_vertex(x.o as int) && self.live_vertex(x.q as int)
        &&& self.live_vertex(x.l as int) && self.live_vertex(x.r as int)
        &&& x.o != x.q && x.o != x.l && x.o != x.r && x.q != x.l && x.q != x.r && x.l != x.r
        &&& x.h != x.t && x.h != x.hn && x.h != x.hp && x.h != x.tn && x.h != x.tp
        &&& x.t != x.hn && x.t != x.hp && x.t != x.tn && x.t != x.tp
        &&& x.hn != x.hp && x.hn != x.tn && x.hn != x.tp
        &&& x.hp != x.tn && x.hp != x.tp
        &&& x.tn != x.tp
    }

    /// What holds of the two triangles at a live edge.
    pub proof fn lemma_diamond(self, e: int)
        requires
            self.links_ok(),
            self.live_edge(e),
        ensures
            self.diamond_ok(e, self.diamond(e)),
    {
        let x = self.diamond(e);
        assert(self.edge_ok(e));
        self.lemma_around(x.h as int);
        self.lemma_around(x.t as int);
    }

    /// Two live half-edges of one face are equal or follow each other.
    pub proof fn lemma_same_face(self, h1: int, h2: int)
        requires
            self.links_ok(),
            self.live(h1),
            self.live(h2),
            self.face_of(h1) == self.face_of(h2),
        ensures
            h2 == h1 || h2 == self.next(h1) || h2 == self.prev(h1),
    {
        self.lemma_around(h1);
        self.lemma_around(h2);
    }

    /// A live half-edge outside the two triangles at `e` lies in another
    /// face, and so do the other half-edges of its face.
    pub proof fn lemma_outside(self, e: int, h: int)
        requires
            self.links_ok(),
            self.live_edge(e),
            self.live(h),
            !self.diamond(e).has(h),
        ensures
            self.face_of(h) != self.diamond(e).fl,
            self.face_of(h) != self.diamond(e).fr,
            !self.diamond(e).has(self.next(h)),
            !self.diamond(e).has(self.prev(h)),
            self.twin(h) != self.diamond(e).h,
            self.twin(h) != self.diamond(e).t,
    {
        let x = self.diamond(e);
        self.lemma_diamond(e);
        self.lemma_around(h);
        if self.face_of(h) == x.fl {
            self.lemma_same_face(x.h as int, h);
        }
        if self.face_of(h) == x.fr {
            self.lemma_same_face(x.t as int, h);
        }
    }

    /// The twin of a half-edge with arc `(u, v)` has arc `(v, u)`.
    pub proof fn lemma_twin_arc(self, h: int)
        requires
            self.links_ok(),
            self.live(h),
        ensures
            self.arc(self.twin(h)) == (self.dest(h), self.origin(h)),
    {
        self.lemma_around(h);
    }
}

} // verus!
