//! Exporting a well-formed surface and importing the result gives the same
//! triangles in space.
use vstd::prelude::*;
use super::assemble::face_placed;
use super::assemble::lemma_glued_built;
use super::assemble::vertex_placed;
use super::assemble::vertex_shaped;
use super::construct::build_error;
use super::construct::built;
use super::construct::corners_in_range;
use super::construct::Draft;
use super::construct::Face;
use super::gluing::after;
use super::gluing::before;
use super::gluing::closed_manifold;
use super::gluing::ends_of;
use super::gluing::glued;
use super::gluing::head;
use super::gluing::lemma_closed_manifold_fits;
use super::gluing::lemma_sides;
use super::gluing::place_glued;
use super::gluing::side_glued;
use super::gluing::tail;
use super::gluing::Gluing;
use super::slots::lemma_count_live_take;
use super::model::IndexType;
use super::model::MeshModel;
use super::model::Rings;
use super::rings::lemma_distinct_bounded;
use super::slots::lemma_live_indices;
use super::slots::lemma_rank;
use super::slots::lemma_rank_at;
use super::slots::live_indices;

verus! {

impl<P> MeshModel<P> {
    /// The live face with `i` live faces below it.
    pub open spec fn face_at(self, i: int) -> int {
        live_indices(self.faces)[i]
    }

    /// The live vertex with `p` live vertices below it.
    pub open spec fn vertex_at(self, p: int) -> int {
        live_indices(self.vertices)[p]
    }

    /// The half-edge that gives side `s` of the exported triangles.
    pub open spec fn half_edge_of_side(self, s: int) -> int {
        let r = self.face_rep(self.face_at(s / 3));
        if s % 3 == 0 {
            r
        } else if s % 3 == 1 {
            self.next(r)
        } else {
            self.prev(r)
        }
    }

    /// The side of the exported triangles that live half-edge `h` gives.
    pub open spec fn side_of(self, h: int) -> int {
        let f = self.face_of(h);
        let r = self.face_rep(f);
        3 * self.face_rank(f) + if h == r {
            0int
        } else if h == self.next(r) {
            1int
        } else {
            2int
        }
    }

    /// How the exported triangles are glued: as the half-edges are linked.
    pub open spec fn gluing(self, g: Rings) -> Gluing {
        Gluing {
            opp: Seq::new(3 * self.num_faces(), |s: int| self.side_of(self.twin(self.half_edge_of_side(s)))),
            pos: Seq::new(3 * self.num_faces(), |s: int| g.pos[self.half_edge_of_side(s)]),
            ring: Seq::new(
                self.num_vertices(),
                |p: int| Seq::new(g.ring[self.vertex_at(p)].len(), |i: int| self.side_of(g.ring[self.vertex_at(p)][i])),
            ),
        }
    }

    /// Live half-edges and sides of the exported triangles correspond.
    pub proof fn lemma_side_of(self, h: int)
        requires
            self.links_ok(),
            self.live(h),
        ensures
            0 <= self.side_of(h) < 3 * self.num_faces(),
            self.half_edge_of_side(self.side_of(h)) == h,
            self.side_of(self.next(h)) == after(self.side_of(h)),
            self.side_of(self.prev(h)) == before(self.side_of(h)),
    {
        let f = self.face_of(h);
        self.lemma_around(h);
        self.lemma_around(self.next(h));
        self.lemma_around(self.prev(h));
        assert(self.face_ok(f));
        lemma_rank(self.faces, f);
        lemma_live_indices(self.faces);
        let r = self.face_rep(f);
        self.lemma_around(r);
    }

    /// Sides of the exported triangles and live half-edges correspond.
    pub proof fn lemma_half_edge_of_side(self, s: int)
        requires
            self.links_ok(),
            0 <= s < 3 * self.num_faces(),
        ensures
            self.live(self.half_edge_of_side(s)),
            self.side_of(self.half_edge_of_side(s)) == s,
            self.half_edge_of_side(after(s)) == self.next(self.half_edge_of_side(s)),
            self.half_edge_of_side(before(s)) == self.prev(self.half_edge_of_side(s)),
    {
        lemma_live_indices(self.faces);
        lemma_rank_at(self.faces, s / 3);
        let f = self.face_at(s / 3);
        assert(self.face_ok(f));
        let r = self.face_rep(f);
        self.lemma_around(r);
        self.lemma_around(self.next(r));
        self.lemma_around(self.prev(r));
    }

    /// Different live vertices have different places among the live
    /// vertices.
    pub proof fn lemma_rank_distinct(self, u: int, v: int)
        requires
            self.live_vertex(u),
            self.live_vertex(v),
            u != v,
        ensures
            self.vertex_rank(u) != self.vertex_rank(v),
    {
        if u < v {
            lemma_count_live_take(self.vertices, u, v);
        } else {
            lemma_count_live_take(self.vertices, v, u);
        }
    }

    /// Side `s` of the exported triangles runs between the places of the
    /// ends of its half-edge.
    pub proof fn lemma_exported_side(self, points: Seq<P>, faces: Seq<Face>, s: int)
        requires
            self.links_ok(),
            self.exported(points, faces),
            0 <= s < 3 * self.num_faces(),
        ensures
            tail(faces, s) == self.vertex_rank(self.origin(self.half_edge_of_side(s))),
            head(faces, s) == self.vertex_rank(self.dest(self.half_edge_of_side(s))),
            tail(faces, before(s)) == self.vertex_rank(self.apex(self.half_edge_of_side(s))),
            self.live_vertex(self.origin(self.half_edge_of_side(s))),
            self.live_vertex(self.dest(self.half_edge_of_side(s))),
            self.live_vertex(self.apex(self.half_edge_of_side(s))),
            (tail(faces, s) as int) < points.len(),
    {
        lemma_live_indices(self.faces);
        lemma_rank_at(self.faces, s / 3);
        let f = self.face_at(s / 3);
        assert(self.face_ok(f));
        let r = self.face_rep(f);
        self.lemma_around(r);
        self.lemma_around(self.next(r));
        self.lemma_around(self.prev(r));
        assert(self.face_rank(f) == s / 3);
        lemma_sides(faces, s);
        self.lemma_vertex_rank(self.origin(self.half_edge_of_side(s)));
    }

    /// The triangles exported from a well-formed surface are glued as its
    /// half-edges are linked.
    pub proof fn lemma_exported_glued(self, points: Seq<P>, faces: Seq<Face>, g: Rings)
        requires
            self.links_ok(),
            self.arcs_distinct(),
            self.rings_ok(g),
            self.exported(points, faces),
        ensures
            glued(points.len() as int, faces, self.gluing(g)),
    {
        let count = points.len() as int;
        let n = 3 * faces.len();
        let w = self.gluing(g);
        lemma_live_indices(self.faces);
        lemma_live_indices(self.vertices);
        // the sides are as many as their half-edges, which are all different
        let hs = Seq::new(n, |s: int| self.half_edge_of_side(s));
        assert forall|s1: int, s2: int| 0 <= s1 < n && 0 <= s2 < n && s1 != s2 implies hs[s1] != hs[s2] by {
            self.lemma_half_edge_of_side(s1);
            self.lemma_half_edge_of_side(s2);
        }
        assert forall|s: int| 0 <= s < n implies 0 <= #[trigger] hs[s] < self.half_edges.len() by {
            self.lemma_half_edge_of_side(s);
        }
        lemma_distinct_bounded(hs, self.half_edges.len() as int);
        assert forall|s: int| 0 <= s < n implies #[trigger] side_glued(count, faces, w, s) by {
            self.lemma_side_glued(points, faces, g, s);
        }
        assert forall|s1: int, s2: int|
            0 <= s1 < n && 0 <= s2 < n && #[trigger] ends_of(faces, s1) == #[trigger] ends_of(faces, s2) implies s1 == s2 by {
            let h1 = self.half_edge_of_side(s1);
            let h2 = self.half_edge_of_side(s2);
            self.lemma_half_edge_of_side(s1);
            self.lemma_half_edge_of_side(s2);
            self.lemma_exported_side(points, faces, s1);
            self.lemma_exported_side(points, faces, s2);
            if self.origin(h1) != self.origin(h2) {
                self.lemma_rank_distinct(self.origin(h1), self.origin(h2));
            }
            if self.dest(h1) != self.dest(h2) {
                self.lemma_rank_distinct(self.dest(h1), self.dest(h2));
            }
            assert(self.arc(h1) == self.arc(h2));
        }
        assert forall|p: int, i: int| 0 <= p < count && 0 <= i < w.ring[p].len() implies #[trigger] place_glued(
            faces,
            w,
            p,
            i,
        ) by {
            lemma_rank_at(self.vertices, p);
            let v = self.vertex_at(p);
            let k = g.ring[v][i];
            assert(self.ring_slot_ok(g, v, i));
            let j = if i + 1 == g.ring[v].len() { 0 } else { i + 1 };
            assert(self.ring_slot_ok(g, v, j));
            self.lemma_side_of(k);
            let s = self.side_of(k);
            self.lemma_exported_side(points, faces, s);
            self.lemma_around(k);
            self.lemma_side_of(self.prev(k));
            lemma_sides(faces, s);
            self.lemma_half_edge_of_side(before(s));
        }
    }

    /// Each side of the exported triangles is glued as its half-edge is linked.
    pub proof fn lemma_side_glued(self, points: Seq<P>, faces: Seq<Face>, g: Rings, s: int)
        requires
            self.links_ok(),
            self.arcs_distinct(),
            self.rings_ok(g),
            self.exported(points, faces),
            0 <= s < 3 * faces.len(),
        ensures
            side_glued(points.len() as int, faces, self.gluing(g), s),
    {
        let w = self.gluing(g);
        let h = self.half_edge_of_side(s);
        lemma_live_indices(self.faces);
        lemma_live_indices(self.vertices);
        self.lemma_half_edge_of_side(s);
        self.lemma_exported_side(points, faces, s);
        self.lemma_around(h);
        let t = self.twin(h);
        self.lemma_around(t);
        self.lemma_side_of(t);
        let o = self.side_of(t);
        self.lemma_exported_side(points, faces, o);
        self.lemma_rank_distinct(self.origin(h), self.dest(h));
        self.lemma_rank_distinct(self.apex(h), self.apex(t));
        assert(self.dart_in_ring(g, h));
        let v = self.origin(h);
        lemma_rank(self.vertices, v);
        assert(self.vertex_at(self.vertex_rank(v) as int) == v);
        assert(w.ring[tail(faces, s) as int][w.pos[s]] == self.side_of(g.ring[v][g.pos[h]]));
    }

    /// Exporting a well-formed surface and making a store of what was
    /// exported succeeds, and gives a surface with as many vertices, edges and
    /// faces, and with the same triangles in space: face `i` of the new
    /// surface has its corners, in order, at the positions of the corners of
    /// the `i`-th live face of the old one.
    pub proof fn law_round_trip(self, points: Seq<P>, faces: Seq<Face>)
        requires
            self.wf(),
            self.exported(points, faces),
        ensures
            closed_manifold(points.len() as int, faces),
            build_error(points, faces) is None,
            built(points, faces).wf(),
            built(points, faces).num_vertices() == self.num_vertices(),
            built(points, faces).num_edges() == self.num_edges(),
            built(points, faces).num_faces() == self.num_faces(),
            forall|f: int|
                self.live_face(f) ==> {
                    let i = #[trigger] self.face_rank(f) as int;
                    let b = built(points, faces);
                    &&& b.live_face(i)
                    &&& b.position(b.face_vertices(i).0) == self.position(self.face_vertices(f).0)
                    &&& b.position(b.face_vertices(i).1) == self.position(self.face_vertices(f).1)
                    &&& b.position(b.face_vertices(i).2) == self.position(self.face_vertices(f).2)
                },
    {
        let g = self.rings();
        let w = self.gluing(g);
        let count = points.len() as int;
        let n = 3 * faces.len();
        self.lemma_exported_glued(points, faces, g);
        let point_of = lemma_glued_built(points, faces, w);
        let b = built(points, faces);
        let d = Draft::of(points, faces);
        lemma_closed_manifold_fits(count, faces);
        assert(corners_in_range(count, faces));
        lemma_live_indices(self.faces);
        lemma_live_indices(self.vertices);
        // every point has a vertex, and every vertex a point of its own
        let as_points = Seq::new(point_of.len(), |v: int| point_of[v] as int);
        assert forall|u: int, v: int| 0 <= u < point_of.len() && 0 <= v < point_of.len() && u != v implies as_points[u]
            != as_points[v] by {
            assert(vertex_shaped(d, points, faces, point_of, n as int, u));
            assert(vertex_shaped(d, points, faces, point_of, n as int, v));
        }
        assert forall|v: int| 0 <= v < as_points.len() implies 0 <= #[trigger] as_points[v] < count by {
            assert(vertex_placed(b, points, point_of, v));
        }
        lemma_distinct_bounded(as_points, count);
        let as_vertices = Seq::new(count as nat, |p: int| d.ids[p as IndexType] as int);
        assert forall|p: int| 0 <= p < count implies d.ids.contains_key(p as IndexType) && 0 <= #[trigger] as_vertices[p]
            < point_of.len() && point_of[as_vertices[p]] == p by {
            lemma_rank_at(self.vertices, p);
            let v = self.vertex_at(p);
            assert(self.vertex_ok(v));
            let h = self.vertex_rep(v);
            self.lemma_side_of(h);
            let s = self.side_of(h);
            self.lemma_exported_side(points, faces, s);
            self.lemma_half_edge_of_side(s);
            lemma_rank(self.vertices, v);
            assert(tail(faces, s) as int == p);
            crate::data_structure::assemble::lemma_arc(d, points, faces, w, point_of, s);
        }
        assert forall|p: int, q: int| 0 <= p < count && 0 <= q < count && p != q implies as_vertices[p] != as_vertices[q] by {
            assert(point_of[as_vertices[p]] == p);
            assert(point_of[as_vertices[q]] == q);
        }
        lemma_distinct_bounded(as_vertices, point_of.len() as int);
        assert forall|f: int| self.live_face(f) implies {
            let i = #[trigger] self.face_rank(f) as int;
            &&& b.live_face(i)
            &&& b.position(b.face_vertices(i).0) == self.position(self.face_vertices(f).0)
            &&& b.position(b.face_vertices(i).1) == self.position(self.face_vertices(f).1)
            &&& b.position(b.face_vertices(i).2) == self.position(self.face_vertices(f).2)
        } by {
            let i = self.face_rank(f) as int;
            lemma_rank(self.faces, f);
            assert(self.face_ok(f));
            let r = self.face_rep(f);
            self.lemma_around(r);
            let (x, y, z) = b.face_vertices(i);
            assert(face_placed(b, faces, point_of, i));
            assert(vertex_placed(b, points, point_of, x));
            assert(vertex_placed(b, points, point_of, y));
            assert(vertex_placed(b, points, point_of, z));
        }
    }
}

} // verus!
