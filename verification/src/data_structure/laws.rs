//! Laws of well-formed surfaces and of the rewrites.
use vstd::prelude::*;
use super::model::MeshModel;

verus! {

impl<P> MeshModel<P> {
    /// The ends of edge `e` without their order: the lesser first.
    pub open spec fn ends(self, e: int) -> (int, int) {
        let (a, b) = self.endpoints(e);
        if a <= b {
            (a, b)
        } else {
            (b, a)
        }
    }

    /// In a well-formed surface every live half-edge closes a triangle with
    /// the two that follow it, is the twin of its twin, and ends where its
    /// twin starts.
    pub proof fn law_half_edge_links(self, h: int)
        requires
            self.wf(),
            self.live(h),
        ensures
            self.next(self.next(self.next(h))) == h,
            self.twin(self.twin(h)) == h,
            self.origin(self.twin(h)) == self.origin(self.next(h)),
            self.live(self.next(h)),
            self.live(self.twin(h)),
    {
        self.lemma_around(h);
    }

    /// In a well-formed surface no edge joins a vertex to itself, and no two
    /// edges join the same two vertices.
    pub proof fn law_simple(self, e1: int, e2: int)
        requires
            self.wf(),
            self.live_edge(e1),
            self.live_edge(e2),
        ensures
            self.endpoints(e1).0 != self.endpoints(e1).1,
            e1 != e2 ==> self.ends(e1) != self.ends(e2),
    {
        let h1 = self.edge_rep(e1);
        let h2 = self.edge_rep(e2);
        assert(self.edge_ok(e1));
        assert(self.edge_ok(e2));
        self.lemma_around(h1);
        self.lemma_around(h2);
        if e1 != e2 && self.ends(e1) == self.ends(e2) {
            if self.arc(h1) == self.arc(h2) {
                assert(h1 == h2);
            } else {
                self.lemma_twin_arc(h2);
                assert(self.arc(h1) == self.arc(self.twin(h2)));
                assert(h1 == self.twin(h2));
            }
        }
    }

    /// A legal flip can be undone: flipping the same edge again is legal,
    /// and gives every edge the ends it had.
    pub proof fn law_flip_twice(self, e: int)
        requires
            self.wf(),
            self.live_edge(e),
            self.flip_legal(e),
        ensures
            self.flip(e).live_edge(e),
            self.flip(e).flip_legal(e),
            self.flip(e).flip(e).wf(),
            self.flip(e).flip(e).edges == self.edges,
            forall|d: int| self.live_edge(d) ==> #[trigger] self.flip(e).flip(e).ends(d) == self.ends(d),
            self.flip(e).flip(e).euler() == self.euler(),
    {
        let x = self.diamond(e);
        let m1 = self.flip(e);
        self.lemma_diamond(e);
        self.lemma_flip(e);
        self.lemma_flip_arcs(e);
        self.lemma_flip_fields(e);
        m1.lemma_diamond(e);
        assert(m1.far_left(e) == x.o && m1.far_right(e) == x.q);
        if m1.adjacent(x.o as int, x.q as int) {
            let k = choose|k: int| m1.live(k) && #[trigger] m1.arc(k) == (x.o as int, x.q as int);
            assert(self.live(k));
            if k != x.h && k != x.t {
                assert(m1.arc(k) == self.arc(k));
                assert(self.arc(k) == self.arc(x.h as int));
            }
            assert(false);
        }
        m1.lemma_flip(e);
        let m2 = m1.flip(e);
        assert forall|d: int| self.live_edge(d) implies #[trigger] m2.ends(d) == self.ends(d) by {
            if d != e {
                assert(m1.endpoints(d) == self.endpoints(d));
                assert(m2.endpoints(d) == m1.endpoints(d));
            }
        }
    }

    /// A split followed by a collapse of the split edge or of one of the
    /// three new edges leaves as many vertices, edges and faces as there
    /// were.
    pub proof fn law_split_collapse(self, e: int, d: int)
        requires
            self.wf(),
            self.live_edge(e),
            self.room_for_split(),
            d == e || d == self.fresh().e_l || d == self.fresh().e_o || d == self.fresh().e_r,
            self.split(e).collapse_legal(d),
        ensures
            self.split(e).live_edge(d),
            self.split(e).collapse(d).wf(),
            self.split(e).collapse(d).num_vertices() == self.num_vertices(),
            self.split(e).collapse(d).num_edges() == self.num_edges(),
            self.split(e).collapse(d).num_faces() == self.num_faces(),
            self.split(e).collapse(d).euler() == self.euler(),
    {
        self.lemma_split(e);
        self.lemma_split_fields(e);
        self.split(e).lemma_collapse(d);
    }

    /// A flip keeps the Euler characteristic; a split adds a vertex, three
    /// edges and two faces; a collapse removes as many.
    pub proof fn law_counts(self, e: int)
        requires
            self.wf(),
            self.live_edge(e),
        ensures
            self.flip_legal(e) ==> self.flip(e).euler() == self.euler(),
            self.room_for_split() ==> self.split(e).num_vertices() == self.num_vertices() + 1 && self.split(e).num_edges()
                == self.num_edges() + 3 && self.split(e).num_faces() == self.num_faces() + 2,
            self.collapse_legal(e) ==> self.collapse(e).num_vertices() + 1 == self.num_vertices() && self.collapse(
                e,
            ).num_edges() + 3 == self.num_edges() && self.collapse(e).num_faces() + 2 == self.num_faces(),
    {
        if self.flip_legal(e) {
            self.lemma_flip(e);
        }
        if self.room_for_split() {
            self.lemma_split(e);
        }
        if self.collapse_legal(e) {
            self.lemma_collapse(e);
        }
    }

    /// An edge of a well-formed surface can be collapsed exactly if the
    /// vertices joined to both of its ends are the two apexes and no others,
    /// and each apex has more than three edges.
    pub proof fn law_link_condition(self, e: int)
        requires
            self.wf(),
            self.live_edge(e),
        ensures
            self.collapse_legal(e) <==> {
                let x = self.diamond(e);
                &&& Set::new(|v: int| self.adjacent(x.o as int, v) && self.adjacent(x.q as int, v)) =~= set![
                    x.l as int,
                    x.r as int,
                ]
                &&& self.degree(x.l as int) > 3
                &&& self.degree(x.r as int) > 3
            },
    {
        let x = self.diamond(e);
        let common = Set::new(|v: int| self.adjacent(x.o as int, v) && self.adjacent(x.q as int, v));
        self.lemma_diamond(e);
        self.lemma_adjacent(x.hn as int);
        self.lemma_adjacent(x.hp as int);
        self.lemma_adjacent(x.tn as int);
        self.lemma_adjacent(x.tp as int);
        assert(common.contains(x.l as int));
        assert(common.contains(x.r as int));
        if self.collapse_legal(e) {
            assert forall|v: int| common.contains(v) implies v == x.l || v == x.r by {
                assert(self.adjacent(x.o as int, v) && self.adjacent(x.q as int, v));
            }
            assert(common =~= set![x.l as int, x.r as int]);
        }
        if common =~= set![x.l as int, x.r as int] {
            assert forall|v: int| #[trigger]
                self.adjacent(x.o as int, v) && self.adjacent(x.q as int, v) implies v == x.l || v == x.r by {
                assert(common.contains(v));
            }
        }
    }
}

} // verus!
