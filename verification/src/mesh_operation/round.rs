//! Why the flips of a round of subdivision are legal: every face is kept
//! track of within the triangle it was cut from.
use vstd::prelude::*;
use crate::data_structure::slots::lemma_live_indices;
use crate::data_structure::slots::lemma_live_ascending;
use crate::data_structure::slots::live_indices;
use crate::data_structure::model::IndexType;
use crate::data_structure::model::MeshModel;
use crate::data_structure::slots::lemma_rank;

verus! {
/// The bookkeeping of one round of subdivision, which starts from a `base`
/// surface: for each face slot, the face of `base` that the face lies in;
/// for each face of `base` that has been cut, the stencil whose split cut it
/// first; for each diagonal, the face of `base` that it lies in; and the
/// faces of `base` whose diagonal has had its turn at being flipped.
pub ghost struct Round {
    pub home: Seq<int>,
    pub first: Map<int, int>,
    pub tri: Seq<int>,
    pub done: Set<int>,
}

impl<P> MeshModel<P> {
    /// `c` is a corner of face `f`.
    pub open spec fn corner_of(self, f: int, c: int) -> bool {
        c == self.face_vertices(f).0 || c == self.face_vertices(f).1 || c == self.face_vertices(f).2
    }

    /// `t` is one of the two faces at edge `e`.
    pub open spec fn at_edge(self, e: int, t: int) -> bool {
        t == self.diamond(e).fl || t == self.diamond(e).fr
    }

    /// Vertex `c` may be a corner of a face that lies in face `t` of this
    /// base surface after `i` splits: it is a corner of `t`, or the new vertex
    /// on an edge of `t`.
    pub open spec fn vertex_fits(self, t: int, c: int, i: int) -> bool {
        let nv = self.vertices.len();
        if c < nv {
            self.corner_of(t, c)
        } else {
            c - nv < i && self.at_edge(self.stencils()[c - nv].edge as int, t)
        }
    }

    /// Face `f` of surface `m` lies in its home as it should, `i` splits
    /// into a round from this base surface.  Its corners are corners of the
    /// home or new vertices on edges of the home; while the diagonal of the
    /// home has not had its turn, the new vertex of the first split of the
    /// home is among them; and a home that has not been cut is the face
    /// itself.
    pub open spec fn face_fits(self, m: Self, r: Round, f: int, i: int) -> bool {
        let t = r.home[f];
        let (x, y, z) = m.face_vertices(f);
        &&& self.live_face(t)
        &&& self.vertex_fits(t, x, i)
        &&& self.vertex_fits(t, y, i)
        &&& self.vertex_fits(t, z, i)
        &&& r.first.contains_key(t) && !r.done.contains(t) ==> m.corner_of(f, self.vertices.len() + r.first[t])
        &&& r.first.contains_key(t) ==> 0 <= r.first[t] < i
        &&& !r.first.contains_key(t) ==> t == f
    }

    /// The edge of stencil `j` is as it should be `i` splits into the round:
    /// it has its representative and twin still; before its split it has its
    /// ends and its two faces lie in the faces it had; after its split it
    /// runs from its new vertex to its second end, and the two faces it had
    /// count as cut.
    pub open spec fn edge_kept(self, m: Self, r: Round, j: int, i: int) -> bool {
        let e = self.stencils()[j].edge as int;
        let h = self.edge_rep(e);
        &&& m.live_edge(e)
        &&& m.twin(h) == self.twin(h)
        &&& if j < i {
            &&& m.endpoints(e) == (self.vertices.len() + j, self.endpoints(e).1)
            &&& r.first.contains_key(self.diamond(e).fl as int)
            &&& r.first.contains_key(self.diamond(e).fr as int)
        } else {
            &&& m.endpoints(e) == self.endpoints(e)
            &&& 0 <= m.face_of(h) < r.home.len()
            &&& 0 <= m.face_of(self.twin(h)) < r.home.len()
            &&& r.home[m.face_of(h)] == self.diamond(e).fl
            &&& r.home[m.face_of(self.twin(h))] == self.diamond(e).fr
        }
    }

    /// Edge `d`, which the round made, is live and starts at a new vertex.
    pub open spec fn edge_made(self, m: Self, d: int, i: int) -> bool {
        m.live_edge(d) && self.vertices.len() <= m.endpoints(d).0 < self.vertices.len() + i
    }

    /// Diagonal `j` runs from the new vertex of the split that first cut
    /// its home to the corner of the home across the split edge.
    pub open spec fn diagonal_fits(self, m: Self, r: Round, diagonals: Seq<IndexType>, j: int) -> bool {
        let d = diagonals[j] as int;
        let t = r.tri[j];
        let i = r.first[t];
        let e = self.stencils()[i].edge as int;
        &&& self.edges.len() <= d < m.edges.len()
        &&& r.first.contains_key(t)
        &&& 0 <= i < self.stencils().len()
        &&& m.endpoints(d).0 == self.vertices.len() + i
        &&& (t == self.diamond(e).fl && m.endpoints(d).1 == self.diamond(e).l) || (t == self.diamond(e).fr
            && m.endpoints(d).1 == self.diamond(e).r)
    }

    /// What holds of surface `m` and the bookkeeping `r` when `i` splits of
    /// a round from this base surface are done, and the first `c` diagonals
    /// have had their turn at being flipped.
    pub open spec fn round_ok(self, m: Self, r: Round, diagonals: Seq<IndexType>, i: int, c: int) -> bool {
        let k = self.stencils().len();
        &&& 0 <= i <= k
        &&& 0 <= c <= diagonals.len()
        &&& forall|d: int| 0 <= d < self.edges.len() ==> #[trigger] m.edges[d] == self.edges[d]
        &&& m.half_edges.len() == self.half_edges.len() + 6 * i
        &&& m.vertices.len() == self.vertices.len() + i
        &&& m.edges.len() == self.edges.len() + 3 * i
        &&& m.faces.len() == self.faces.len() + 2 * i
        &&& r.home.len() == m.faces.len()
        &&& r.tri.len() == diagonals.len()
        &&& forall|j: int| 0 <= j < k ==> #[trigger] self.edge_kept(m, r, j, i)
        &&& forall|d: int| self.edges.len() <= d < m.edges.len() ==> #[trigger] self.edge_made(m, d, i)
        &&& forall|f: int| m.live_face(f) ==> #[trigger] self.face_fits(m, r, f, i)
        &&& forall|j: int|
            c <= j < diagonals.len() ==> #[trigger] self.diagonal_fits(m, r, diagonals, j) && !r.done.contains(r.tri[j])
        &&& forall|j1: int, j2: int|
            0 <= j1 < j2 < diagonals.len() ==> #[trigger] r.tri[j1] != #[trigger] r.tri[j2]
    }

    /// The bookkeeping at the start of a round.
    pub open spec fn round_start(self) -> Round {
        Round { home: Seq::new(self.faces.len(), |f: int| f), first: Map::empty(), tri: Seq::empty(), done: Set::empty() }
    }
}

impl<P> MeshModel<P> {
    /// What the stencils of a well-formed surface hold.
    pub proof fn lemma_stencil(self, j: int)
        requires
            self.wf(),
            0 <= j < self.stencils().len(),
        ensures
            self.live_edge(self.stencils()[j].edge as int),
            self.stencils()[j] == self.stencil(self.stencils()[j].edge as int),
            self.stencils()[j].far[0] == self.diamond(self.stencils()[j].edge as int).l,
            self.stencils()[j].far[1] == self.diamond(self.stencils()[j].edge as int).r,
            forall|j2: int|
                0 <= j2 < self.stencils().len() && j2 != j ==> (#[trigger] self.stencils()[j2]).edge
                    != self.stencils()[j].edge,
    {
        lemma_live_indices(self.edges);
        assert forall|j2: int| 0 <= j2 < self.stencils().len() && j2 != j implies (#[trigger] self.stencils()[j2]).edge
            != self.stencils()[j].edge by {
            if j2 < j {
                lemma_live_ascending(self.edges, j2, j);
            } else {
                lemma_live_ascending(self.edges, j, j2);
            }
        }
    }

    /// At the start of a round everything is as the bookkeeping says.
    pub proof fn lemma_round_start(self)
        requires
            self.wf(),
        ensures
            self.round_ok(self, self.round_start(), Seq::empty(), 0, 0),
    {
        let r = self.round_start();
        assert forall|j: int| 0 <= j < self.stencils().len() implies #[trigger] self.edge_kept(self, r, j, 0) by {
            self.lemma_stencil(j);
            self.lemma_diamond(self.stencils()[j].edge as int);
        }
        assert forall|f: int| self.live_face(f) implies #[trigger] self.face_fits(self, r, f, 0) by {
            assert(self.face_ok(f));
            self.lemma_around(self.face_rep(f));
        }
    }
}

impl<P> MeshModel<P> {
    /// The bookkeeping after the split for stencil `i`: the two new faces
    /// lie where the faces at the edge lay, and a home that was not cut
    /// before has been cut first by this split.
    pub open spec fn round_split(self, m: Self, r: Round, i: int) -> Round {
        let e = self.stencils()[i].edge as int;
        let x = m.diamond(e);
        let tl = r.home[x.fl as int];
        let tr = r.home[x.fr as int];
        let first_l = if r.first.contains_key(tl) { r.first } else { r.first.insert(tl, i) };
        let flag_l = x.l == self.stencils()[i].far[0];
        let flag_r = x.r == self.stencils()[i].far[1];
        let tri_l = if flag_l { r.tri.push(tl) } else { r.tri };
        Round {
            home: r.home.push(tl).push(tr),
            first: if first_l.contains_key(tr) { first_l } else { first_l.insert(tr, i) },
            tri: if flag_r { tri_l.push(tr) } else { tri_l },
            done: r.done,
        }
    }

    /// The diagonals after the split for stencil `i`.
    pub open spec fn diagonals_split(self, m: Self, diagonals: Seq<IndexType>, i: int) -> Seq<IndexType> {
        let e = self.stencils()[i].edge as int;
        let x = m.diamond(e);
        let y = m.fresh();
        let d1 = if x.l == self.stencils()[i].far[0] { diagonals.push(y.e_l) } else { diagonals };
        if x.r == self.stencils()[i].far[1] {
            d1.push(y.e_r)
        } else {
            d1
        }
    }

    /// What the bookkeeping says of the edge that is split next, and of the
    /// two faces at it.
    pub proof fn lemma_round_next(self, m: Self, r: Round, diagonals: Seq<IndexType>, i: int)
        requires
            self.wf(),
            m.wf(),
            self.round_ok(m, r, diagonals, i, 0),
            r.done =~= Set::<int>::empty(),
            i < self.stencils().len(),
        ensures
            ({
                let e = self.stencils()[i].edge as int;
                let x = m.diamond(e);
                let x0 = self.diamond(e);
                let tl = r.home[x.fl as int];
                let tr = r.home[x.fr as int];
                &&& m.live_edge(e)
                &&& self.live_edge(e)
                &&& x.h == x0.h && x.t == x0.t && x.o == x0.o && x.q == x0.q
                &&& tl == x0.fl && tr == x0.fr && tl != tr
                &&& x.o < self.vertices.len() && x.q < self.vertices.len()
                &&& x0.l < self.vertices.len() && x0.r < self.vertices.len()
                &&& r.first.contains_key(tl) ==> x.l == self.vertices.len() + r.first[tl]
                &&& !r.first.contains_key(tl) ==> x.l == x0.l && x.fl == tl
                &&& r.first.contains_key(tr) ==> x.r == self.vertices.len() + r.first[tr]
                &&& !r.first.contains_key(tr) ==> x.r == x0.r && x.fr == tr
                &&& (x.l == x0.l) == !r.first.contains_key(tl)
                &&& (x.r == x0.r) == !r.first.contains_key(tr)
            }),
    {
        let e = self.stencils()[i].edge as int;
        let x = m.diamond(e);
        let x0 = self.diamond(e);
        self.lemma_stencil(i);
        assert(self.edge_kept(m, r, i, i));
        self.lemma_diamond(e);
        m.lemma_diamond(e);
        assert(self.face_fits(m, r, x.fl as int, i));
        assert(self.face_fits(m, r, x.fr as int, i));
        assert(m.face_ok(x.fl as int));
        assert(m.face_ok(x.fr as int));
        assert(self.face_ok(x0.fl as int));
        assert(self.face_ok(x0.fr as int));
        m.lemma_around(m.face_rep(x.fl as int));
        m.lemma_around(m.face_rep(x.fr as int));
        self.lemma_around(self.face_rep(x0.fl as int));
        self.lemma_around(self.face_rep(x0.fr as int));
        m.lemma_same_face(x.h as int, m.face_rep(x.fl as int));
        m.lemma_same_face(x.t as int, m.face_rep(x.fr as int));
        self.lemma_same_face(x0.h as int, self.face_rep(x0.fl as int));
        self.lemma_same_face(x0.t as int, self.face_rep(x0.fr as int));
        // the corners of the face to the left are `o`, `q` and `l`, in some order
        assert(m.corner_of(x.fl as int, x.o as int) && m.corner_of(x.fl as int, x.q as int) && m.corner_of(
            x.fl as int,
            x.l as int,
        ));
        assert(m.corner_of(x.fr as int, x.o as int) && m.corner_of(x.fr as int, x.q as int) && m.corner_of(
            x.fr as int,
            x.r as int,
        ));
        assert(self.corner_of(x0.fl as int, x0.o as int) && self.corner_of(x0.fl as int, x0.q as int)
            && self.corner_of(x0.fl as int, x0.l as int));
        assert(self.corner_of(x0.fr as int, x0.o as int) && self.corner_of(x0.fr as int, x0.q as int)
            && self.corner_of(x0.fr as int, x0.r as int));
        let nv = self.vertices.len() as int;
        if x.l >= nv {
            assert(self.edge_kept(m, r, x.l - nv, i));
        }
        if x.r >= nv {
            assert(self.edge_kept(m, r, x.r - nv, i));
        }
    }
}

impl<P> MeshModel<P> {
    /// After the split for stencil `i` the edge of stencil `j` is as it should
    /// be.
    proof fn lemma_split_edge_kept(self, m: Self, r: Round, diagonals: Seq<IndexType>, i: int, j: int)
        requires
            self.wf(),
            m.wf(),
            self.round_ok(m, r, diagonals, i, 0),
            r.done =~= Set::<int>::empty(),
            i < self.stencils().len(),
            m.room_for_split(),
            0 <= j < self.stencils().len(),
        ensures
            self.edge_kept(m.split(self.stencils()[i].edge as int), self.round_split(m, r, i), j, i + 1),
    {
        let e = self.stencils()[i].edge as int;
        let m2 = m.split(e);
        self.lemma_round_next(m, r, diagonals, i);
        self.lemma_stencil(i);
        self.lemma_stencil(j);
        m.lemma_split(e);
        m.lemma_split_fields(e);
        m.lemma_split_faces(e);
        m.lemma_diamond(e);
        assert(self.edge_kept(m, r, j, i));
        let ej = self.stencils()[j].edge as int;
        self.lemma_diamond(ej);
        let h = self.edge_rep(ej);
        assert(m.edge_ok(ej));
        m.lemma_around(h);
        if j != i {
            assert(m2.endpoints(ej) == m.endpoints(ej));
        }
    }

    /// After the split for stencil `i` every edge that the round made starts at
    /// a new vertex.
    proof fn lemma_split_edge_made(self, m: Self, r: Round, diagonals: Seq<IndexType>, i: int, d: int)
        requires
            self.wf(),
            m.wf(),
            self.round_ok(m, r, diagonals, i, 0),
            r.done =~= Set::<int>::empty(),
            i < self.stencils().len(),
            m.room_for_split(),
            self.edges.len() <= d < m.edges.len() + 3,
        ensures
            self.edge_made(m.split(self.stencils()[i].edge as int), d, i + 1),
    {
        let e = self.stencils()[i].edge as int;
        self.lemma_round_next(m, r, diagonals, i);
        m.lemma_split(e);
        m.lemma_split_fields(e);
        if d < m.edges.len() {
            assert(self.edge_made(m, d, i));
            assert(m.split(e).endpoints(d) == m.endpoints(d));
        }
    }

    /// After the split for stencil `i` every face lies in its home as it
    /// should.
    proof fn lemma_split_face_fits(self, m: Self, r: Round, diagonals: Seq<IndexType>, i: int, f: int)
        requires
            self.wf(),
            m.wf(),
            self.round_ok(m, r, diagonals, i, 0),
            r.done =~= Set::<int>::empty(),
            i < self.stencils().len(),
            m.room_for_split(),
            m.split(self.stencils()[i].edge as int).live_face(f),
        ensures
            self.face_fits(m.split(self.stencils()[i].edge as int), self.round_split(m, r, i), f, i + 1),
    {
        let e = self.stencils()[i].edge as int;
        let m2 = m.split(e);
        let r2 = self.round_split(m, r, i);
        let x = m.diamond(e);
        let y = m.fresh();
        self.lemma_round_next(m, r, diagonals, i);
        self.lemma_stencil(i);
        m.lemma_split(e);
        m.lemma_split_fields(e);
        m.lemma_split_faces(e);
        m.lemma_diamond(e);
        self.lemma_diamond(e);
        assert(self.face_fits(m, r, x.fl as int, i));
        assert(self.face_fits(m, r, x.fr as int, i));
        assert(m.face_ok(x.fl as int));
        assert(m.face_ok(x.fr as int));
        m.lemma_around(m.face_rep(x.fl as int));
        m.lemma_around(m.face_rep(x.fr as int));
        m.lemma_same_face(x.h as int, m.face_rep(x.fl as int));
        m.lemma_same_face(x.t as int, m.face_rep(x.fr as int));
        assert(m.corner_of(x.fl as int, x.o as int) && m.corner_of(x.fl as int, x.q as int) && m.corner_of(
            x.fl as int,
            x.l as int,
        ));
        assert(m.corner_of(x.fr as int, x.o as int) && m.corner_of(x.fr as int, x.q as int) && m.corner_of(
            x.fr as int,
            x.r as int,
        ));
        let tl = r.home[x.fl as int];
        let tr = r.home[x.fr as int];
        if f == x.fl || f == y.f_l || f == x.fr || f == y.f_r {
            let side_l = f == x.fl || f == y.f_l;
            let t = if side_l { tl } else { tr };
            let old_f = if side_l { x.fl as int } else { x.fr as int };
            assert(r2.home[f] == t);
            assert(self.vertex_fits(t, y.m as int, i + 1));
            assert forall|c: int| m.corner_of(old_f, c) implies self.vertex_fits(t, c, i + 1) by {
                assert(self.vertex_fits(t, c, i));
            }
        } else {
            assert(m.live_face(f));
            assert(self.face_fits(m, r, f, i));
            assert(m2.face_vertices(f) == m.face_vertices(f));
            let t = r.home[f];
            assert(r2.home[f] == t);
            if !r.first.contains_key(t) {
                assert(t == f);
            }
        }
    }

    /// After the split for stencil `i` every diagonal is as it should be; the
    /// new ones lie in homes that had not been cut.
    proof fn lemma_split_diagonal_fits(self, m: Self, r: Round, diagonals: Seq<IndexType>, i: int, j: int)
        requires
            self.wf(),
            m.wf(),
            self.round_ok(m, r, diagonals, i, 0),
            r.done =~= Set::<int>::empty(),
            i < self.stencils().len(),
            m.room_for_split(),
            0 <= j < self.diagonals_split(m, diagonals, i).len(),
        ensures
            self.round_split(m, r, i).tri.len() == self.diagonals_split(m, diagonals, i).len(),
            self.diagonal_fits(
                m.split(self.stencils()[i].edge as int),
                self.round_split(m, r, i),
                self.diagonals_split(m, diagonals, i),
                j,
            ),
            j >= diagonals.len() ==> !r.first.contains_key(self.round_split(m, r, i).tri[j]),
            j < diagonals.len() ==> r.first.contains_key(r.tri[j]) && self.round_split(m, r, i).tri[j] == r.tri[j],
    {
        let e = self.stencils()[i].edge as int;
        let m2 = m.split(e);
        self.lemma_round_next(m, r, diagonals, i);
        self.lemma_stencil(i);
        m.lemma_split(e);
        m.lemma_split_fields(e);
        m.lemma_diamond(e);
        self.lemma_diamond(e);
        if j < diagonals.len() {
            assert(self.diagonal_fits(m, r, diagonals, j));
            let d = diagonals[j] as int;
            assert(self.edge_made(m, d, i));
            assert(m2.endpoints(d) == m.endpoints(d));
        }
    }

    /// After the split for stencil `i` everything is as the bookkeeping
    /// says.
    pub proof fn lemma_round_split(self, m: Self, r: Round, diagonals: Seq<IndexType>, i: int)
        requires
            self.wf(),
            m.wf(),
            self.round_ok(m, r, diagonals, i, 0),
            r.done =~= Set::<int>::empty(),
            i < self.stencils().len(),
            m.room_for_split(),
        ensures
            self.round_ok(
                m.split(self.stencils()[i].edge as int),
                self.round_split(m, r, i),
                self.diagonals_split(m, diagonals, i),
                i + 1,
                0,
            ),
            self.round_split(m, r, i).done =~= Set::<int>::empty(),
    {
        let e = self.stencils()[i].edge as int;
        let m2 = m.split(e);
        let r2 = self.round_split(m, r, i);
        let d2 = self.diagonals_split(m, diagonals, i);
        self.lemma_round_next(m, r, diagonals, i);
        m.lemma_split(e);
        m.lemma_split_fields(e);
        assert forall|j: int| 0 <= j < self.stencils().len() implies #[trigger] self.edge_kept(m2, r2, j, i + 1) by {
            self.lemma_split_edge_kept(m, r, diagonals, i, j);
        }
        assert forall|d: int| self.edges.len() <= d < m2.edges.len() implies #[trigger] self.edge_made(m2, d, i + 1) by {
            self.lemma_split_edge_made(m, r, diagonals, i, d);
        }
        assert forall|f: int| m2.live_face(f) implies #[trigger] self.face_fits(m2, r2, f, i + 1) by {
            self.lemma_split_face_fits(m, r, diagonals, i, f);
        }
        assert forall|j: int| 0 <= j < d2.len() implies #[trigger] self.diagonal_fits(m2, r2, d2, j) && !r2.done.contains(
            r2.tri[j],
        ) by {
            self.lemma_split_diagonal_fits(m, r, diagonals, i, j);
        }
        assert forall|j1: int, j2: int| 0 <= j1 < j2 < d2.len() implies #[trigger] r2.tri[j1] != #[trigger] r2.tri[j2] by {
            self.lemma_split_diagonal_fits(m, r, diagonals, i, j1);
            self.lemma_split_diagonal_fits(m, r, diagonals, i, j2);
        }
        if d2.len() > 0 {
            self.lemma_split_diagonal_fits(m, r, diagonals, i, 0);
        }
    }
}

impl<P> MeshModel<P> {
    /// The corners of the face of a live half-edge are its two ends and
    /// its apex.
    pub proof fn lemma_corners(self, k: int)
        requires
            self.links_ok(),
            self.live(k),
        ensures
            self.live_face(self.face_of(k)),
            self.corner_of(self.face_of(k), self.origin(k)),
            self.corner_of(self.face_of(k), self.dest(k)),
            self.corner_of(self.face_of(k), self.apex(k)),
            forall|c: int| self.corner_of(self.face_of(k), c) ==> c == self.origin(k) || c == self.dest(k) || c == self.apex(k),
    {
        let f = self.face_of(k);
        self.lemma_around(k);
        assert(self.face_ok(f));
        let rep = self.face_rep(f);
        self.lemma_around(rep);
        self.lemma_same_face(k, rep);
    }

    /// Two faces of a well-formed surface do not share two edges.
    pub proof fn lemma_two_faces(self, g: int, h: int, t1: int, t2: int)
        requires
            self.wf(),
            self.live_edge(g),
            self.live_edge(h),
            g != h,
            self.at_edge(g, t1),
            self.at_edge(h, t1),
            self.at_edge(g, t2),
            self.at_edge(h, t2),
        ensures
            t1 == t2,
    {
        if t1 != t2 {
            let xg = self.diamond(g);
            let xh = self.diamond(h);
            self.lemma_diamond(g);
            self.lemma_diamond(h);
            // the half-edges of `g` and `h` in `t1`, and those in `t2`
            let g1 = if t1 == xg.fl { xg.h as int } else { xg.t as int };
            let h1 = if t1 == xh.fl { xh.h as int } else { xh.t as int };
            let g2 = self.twin(g1);
            let h2 = self.twin(h1);
            self.lemma_around(g1);
            self.lemma_around(h1);
            self.lemma_around(g2);
            self.lemma_around(h2);
            self.lemma_same_face(g1, h1);
            self.lemma_same_face(g2, h2);
            self.lemma_around(self.next(g1));
            self.lemma_around(self.prev(g1));
            self.lemma_around(self.next(g2));
            self.lemma_around(self.prev(g2));
            self.lemma_twin_arc(g1);
            self.lemma_twin_arc(h1);
            assert(false);
        }
    }

    /// Where a half-edge runs from the left apex at edge `d` to the right
    /// one, in a face whose third corner is the first end of `d`, only three
    /// half-edges leave that end: to the second end of `d` and to the two
    /// apexes.
    pub proof fn lemma_fan_three(self, d: int, k: int, other: int)
        requires
            self.wf(),
            self.live_edge(d),
            self.live(k),
            self.arc(k) == (self.diamond(d).l as int, self.diamond(d).r as int),
            self.apex(k) == self.diamond(d).o,
            self.live(other),
            self.origin(other) == self.diamond(d).o,
        ensures
            self.dest(other) == self.diamond(d).q || self.dest(other) == self.diamond(d).l || self.dest(other)
                == self.diamond(d).r,
    {
        let x = self.diamond(d);
        let g = self.rings();
        self.lemma_diamond(d);
        self.lemma_around(k);
        let k2 = self.prev(k);
        let k3 = self.next(k);
        self.lemma_around(k2);
        self.lemma_around(k3);
        self.lemma_around(x.hp as int);
        self.lemma_around(x.tn as int);
        self.lemma_twin_arc(x.hp as int);
        self.lemma_twin_arc(k3);
        // `k2` runs from `o` to `l`, as the twin of `hp` does
        assert(self.arc(self.twin(x.hp as int)) == self.arc(k2));
        assert(self.twin(x.hp as int) == k2);
        assert(self.arc(self.twin(k3)) == self.arc(x.tn as int));
        assert(self.twin(k3) == x.tn);
        assert(self.step(x.h as int) == k2);
        assert(self.step(k2) == x.tn);
        assert(self.step(x.tn as int) == x.h);
        let v = x.o as int;
        let len = g.ring[v].len();
        assert(self.dart_in_ring(g, x.h as int));
        assert(self.dart_in_ring(g, other));
        let i0 = g.pos[x.h as int];
        let i1 = if i0 + 1 == len { 0 } else { i0 + 1 };
        let i2 = if i1 + 1 == len { 0 } else { i1 + 1 };
        let i3 = if i2 + 1 == len { 0 } else { i2 + 1 };
        assert(self.ring_slot_ok(g, v, i0));
        assert(self.ring_slot_ok(g, v, i1));
        assert(self.ring_slot_ok(g, v, i2));
        assert(self.ring_slot_ok(g, v, i3));
        assert(i3 == i0);
        assert(len <= 3);
        let p = g.pos[other];
        assert(self.ring_slot_ok(g, v, p));
        assert(p == i0 || p == i1 || p == i2);
    }

    /// When every edge has been split, every live half-edge has a new
    /// vertex at one end.
    pub proof fn lemma_arc_new(self, m: Self, r: Round, diagonals: Seq<IndexType>, c: int, k: int)
        requires
            self.wf(),
            m.wf(),
            self.round_ok(m, r, diagonals, self.stencils().len() as int, c),
            m.live(k),
        ensures
            m.origin(k) >= self.vertices.len() || m.dest(k) >= self.vertices.len(),
    {
        let d = m.edge_of(k);
        m.lemma_around(k);
        m.lemma_twin_arc(k);
        assert(m.edge_ok(d));
        if d < self.edges.len() {
            assert(m.edges[d] == self.edges[d]);
            lemma_rank(self.edges, d);
            lemma_live_indices(self.edges);
            let j = crate::data_structure::slots::count_live(self.edges.take(d)) as int;
            assert(self.stencils()[j].edge == d);
            assert(self.edge_kept(m, r, j, self.stencils().len() as int));
        } else {
            assert(self.edge_made(m, d, self.stencils().len() as int));
        }
    }

    /// When every edge has been split, the flip of a diagonal that has not
    /// had its turn is legal.
    pub proof fn lemma_round_flip_legal(self, m: Self, r: Round, diagonals: Seq<IndexType>, c: int)
        requires
            self.wf(),
            m.wf(),
            self.round_ok(m, r, diagonals, self.stencils().len() as int, c),
            c < diagonals.len(),
        ensures
            m.live_edge(diagonals[c] as int),
            m.flip_legal(diagonals[c] as int),
    {
        let k = self.stencils().len() as int;
        let nv = self.vertices.len() as int;
        let d = diagonals[c] as int;
        let t = r.tri[c];
        let i0 = r.first[t];
        let e = self.stencils()[i0].edge as int;
        assert(self.diagonal_fits(m, r, diagonals, c));
        assert(self.edge_made(m, d, k));
        self.lemma_stencil(i0);
        let x = m.diamond(d);
        let x0 = self.diamond(e);
        m.lemma_diamond(d);
        self.lemma_diamond(e);
        let a = x.q as int;
        assert(x.o == nv + i0);
        assert(a < nv);
        // the apexes are new vertices
        self.lemma_arc_new(m, r, diagonals, c, x.hn as int);
        self.lemma_arc_new(m, r, diagonals, c, x.tp as int);
        assert(x.l >= nv && x.r >= nv);
        // both faces at the diagonal lie in `t`
        m.lemma_corners(x.h as int);
        m.lemma_corners(x.t as int);
        assert(self.face_fits(m, r, x.fl as int, k));
        assert(self.face_fits(m, r, x.fr as int, k));
        assert(self.face_ok(x0.fl as int));
        assert(self.face_ok(x0.fr as int));
        self.lemma_corners(x0.h as int);
        self.lemma_corners(x0.t as int);
        assert(self.vertex_fits(r.home[x.fl as int], a, k));
        assert(self.vertex_fits(r.home[x.fl as int], x.o as int, k));
        assert(self.vertex_fits(r.home[x.fr as int], a, k));
        assert(self.vertex_fits(r.home[x.fr as int], x.o as int, k));
        assert(r.home[x.fl as int] == t);
        assert(r.home[x.fr as int] == t);
        assert(self.vertex_fits(t, x.l as int, k));
        assert(self.vertex_fits(t, x.r as int, k));
        let g = self.stencils()[x.l - nv].edge as int;
        let h = self.stencils()[x.r - nv].edge as int;
        self.lemma_stencil(x.l - nv);
        self.lemma_stencil(x.r - nv);
        if m.adjacent(x.l as int, x.r as int) {
            let kk = choose|kk: int| m.live(kk) && #[trigger] m.arc(kk) == (x.l as int, x.r as int);
            let f = m.face_of(kk);
            m.lemma_corners(kk);
            assert(self.face_fits(m, r, f, k));
            let t2 = r.home[f];
            assert(self.vertex_fits(t2, x.l as int, k));
            assert(self.vertex_fits(t2, x.r as int, k));
            self.lemma_two_faces(g, h, t, t2);
            assert(m.corner_of(f, nv + i0));
            assert(m.apex(kk) == x.o);
            // the split edge still leaves the new vertex for an old one
            assert(self.edge_kept(m, r, i0, k));
            assert(m.edge_ok(e));
            let other = m.edge_rep(e);
            m.lemma_fan_three(d, kk, other);
            assert(false);
        }
    }
}

impl<P> MeshModel<P> {
    /// The bookkeeping after diagonal `c` has had its turn.
    pub open spec fn round_flip(self, r: Round, c: int) -> Round {
        Round { done: r.done.insert(r.tri[c]), ..r }
    }

    /// After the flip of the next diagonal every face lies in its home as it
    /// should.
    proof fn lemma_flip_face_fits(self, m: Self, r: Round, diagonals: Seq<IndexType>, c: int, f: int)
        requires
            self.wf(),
            m.wf(),
            self.round_ok(m, r, diagonals, self.stencils().len() as int, c),
            c < diagonals.len(),
            m.flip(diagonals[c] as int).live_face(f),
        ensures
            self.face_fits(m.flip(diagonals[c] as int), self.round_flip(r, c), f, self.stencils().len() as int),
    {
        let k = self.stencils().len() as int;
        let d = diagonals[c] as int;
        let t = r.tri[c];
        let x = m.diamond(d);
        self.lemma_round_flip_legal(m, r, diagonals, c);
        assert(self.diagonal_fits(m, r, diagonals, c));
        m.lemma_diamond(d);
        m.lemma_flip(d);
        m.lemma_flip_faces(d);
        assert(m.live_face(f));
        assert(self.face_fits(m, r, f, k));
        if f == x.fl || f == x.fr {
            m.lemma_corners(x.h as int);
            m.lemma_corners(x.t as int);
            assert(self.face_fits(m, r, x.fl as int, k));
            assert(self.face_fits(m, r, x.fr as int, k));
            // both faces at the diagonal lie in `t`
            self.lemma_round_homes(m, r, diagonals, c);
        }
    }

    /// The two faces at a diagonal that has not had its turn lie in the
    /// home of the diagonal, and so do its four corners.
    proof fn lemma_round_homes(self, m: Self, r: Round, diagonals: Seq<IndexType>, c: int)
        requires
            self.wf(),
            m.wf(),
            self.round_ok(m, r, diagonals, self.stencils().len() as int, c),
            c < diagonals.len(),
        ensures
            ({
                let x = m.diamond(diagonals[c] as int);
                let t = r.tri[c];
                let k = self.stencils().len() as int;
                &&& r.home[x.fl as int] == t
                &&& r.home[x.fr as int] == t
                &&& self.vertex_fits(t, x.o as int, k)
                &&& self.vertex_fits(t, x.q as int, k)
                &&& self.vertex_fits(t, x.l as int, k)
                &&& self.vertex_fits(t, x.r as int, k)
                &&& r.first.contains_key(t)
                &&& 0 <= r.first[t] < k
                &&& self.vertices.len() <= x.l < self.vertices.len() + k
                &&& self.vertices.len() <= x.r < self.vertices.len() + k
            }),
    {
        let k = self.stencils().len() as int;
        let d = diagonals[c] as int;
        let t = r.tri[c];
        let i0 = r.first[t];
        let e = self.stencils()[i0].edge as int;
        assert(self.diagonal_fits(m, r, diagonals, c));
        assert(self.edge_made(m, d, k));
        self.lemma_stencil(i0);
        let x = m.diamond(d);
        let x0 = self.diamond(e);
        m.lemma_diamond(d);
        self.lemma_diamond(e);
        self.lemma_arc_new(m, r, diagonals, c, x.hn as int);
        self.lemma_arc_new(m, r, diagonals, c, x.tp as int);
        m.lemma_corners(x.h as int);
        m.lemma_corners(x.t as int);
        assert(self.face_fits(m, r, x.fl as int, k));
        assert(self.face_fits(m, r, x.fr as int, k));
        assert(self.face_ok(x0.fl as int));
        assert(self.face_ok(x0.fr as int));
        self.lemma_corners(x0.h as int);
        self.lemma_corners(x0.t as int);
        assert(self.vertex_fits(r.home[x.fl as int], x.q as int, k));
        assert(self.vertex_fits(r.home[x.fl as int], x.o as int, k));
        assert(self.vertex_fits(r.home[x.fr as int], x.q as int, k));
        assert(self.vertex_fits(r.home[x.fr as int], x.o as int, k));
        assert(self.vertex_fits(r.home[x.fl as int], x.l as int, k));
        assert(self.vertex_fits(r.home[x.fr as int], x.r as int, k));
    }

    /// After the flip of the next diagonal the later diagonals are as they
    /// were.
    proof fn lemma_flip_diagonal_fits(self, m: Self, r: Round, diagonals: Seq<IndexType>, c: int, j: int)
        requires
            self.wf(),
            m.wf(),
            self.round_ok(m, r, diagonals, self.stencils().len() as int, c),
            c < j < diagonals.len(),
        ensures
            self.diagonal_fits(m.flip(diagonals[c] as int), self.round_flip(r, c), diagonals, j),
            !self.round_flip(r, c).done.contains(r.tri[j]),
    {
        let d = diagonals[c] as int;
        let dj = diagonals[j] as int;
        self.lemma_round_flip_legal(m, r, diagonals, c);
        assert(self.diagonal_fits(m, r, diagonals, c));
        assert(self.diagonal_fits(m, r, diagonals, j));
        assert(r.tri[c] != r.tri[j]);
        assert(self.edge_made(m, dj, self.stencils().len() as int));
        m.lemma_flip(d);
        let e = self.stencils()[r.first[r.tri[c]]].edge as int;
        self.lemma_stencil(r.first[r.tri[c]]);
        self.lemma_diamond(e);
        if dj != d {
            assert(m.flip(d).endpoints(dj) == m.endpoints(dj));
        }
    }

    /// After the flip of the next diagonal everything is as the bookkeeping
    /// says.
    pub proof fn lemma_round_flip(self, m: Self, r: Round, diagonals: Seq<IndexType>, c: int)
        requires
            self.wf(),
            m.wf(),
            self.round_ok(m, r, diagonals, self.stencils().len() as int, c),
            c < diagonals.len(),
        ensures
            m.live_edge(diagonals[c] as int),
            m.flip_legal(diagonals[c] as int),
            self.round_ok(
                m.flip(diagonals[c] as int),
                self.round_flip(r, c),
                diagonals,
                self.stencils().len() as int,
                c + 1,
            ),
    {
        let k = self.stencils().len() as int;
        let d = diagonals[c] as int;
        let m2 = m.flip(d);
        let r2 = self.round_flip(r, c);
        self.lemma_round_flip_legal(m, r, diagonals, c);
        assert(self.diagonal_fits(m, r, diagonals, c));
        m.lemma_flip(d);
        m.lemma_flip_fields(d);
        m.lemma_diamond(d);
        self.lemma_round_homes(m, r, diagonals, c);
        assert forall|j: int| 0 <= j < k implies #[trigger] self.edge_kept(m2, r2, j, k) by {
            assert(self.edge_kept(m, r, j, k));
            self.lemma_stencil(j);
            let e = self.stencils()[j].edge as int;
            self.lemma_diamond(e);
            assert(m.edges[e] == self.edges[e]);
            assert(m2.endpoints(e) == m.endpoints(e));
            assert(m2.twin(self.edge_rep(e)) == m.twin(self.edge_rep(e)));
        }
        assert forall|dd: int| self.edges.len() <= dd < m2.edges.len() implies #[trigger] self.edge_made(m2, dd, k) by {
            assert(self.edge_made(m, dd, k));
            if dd != d {
                assert(m2.endpoints(dd) == m.endpoints(dd));
            }
        }
        assert forall|f: int| m2.live_face(f) implies #[trigger] self.face_fits(m2, r2, f, k) by {
            self.lemma_flip_face_fits(m, r, diagonals, c, f);
        }
        assert forall|j: int| c + 1 <= j < diagonals.len() implies #[trigger] self.diagonal_fits(m2, r2, diagonals, j)
            && !r2.done.contains(r2.tri[j]) by {
            self.lemma_flip_diagonal_fits(m, r, diagonals, c, j);
        }
    }

    /// Moving a vertex changes nothing of what the bookkeeping says.
    pub proof fn lemma_round_moved(self, m: Self, r: Round, diagonals: Seq<IndexType>, i: int, c: int, v: int, p: P)
        requires
            self.round_ok(m, r, diagonals, i, c),
            m.live_vertex(v),
        ensures
            self.round_ok(m.with_position(v, p), r, diagonals, i, c),
    {
        let m2 = m.with_position(v, p);
        assert forall|j: int| 0 <= j < self.stencils().len() implies #[trigger] self.edge_kept(m2, r, j, i) by {
            assert(self.edge_kept(m, r, j, i));
        }
        assert forall|d: int| self.edges.len() <= d < m2.edges.len() implies #[trigger] self.edge_made(m2, d, i) by {
            assert(self.edge_made(m, d, i));
        }
        assert forall|f: int| m2.live_face(f) implies #[trigger] self.face_fits(m2, r, f, i) by {
            assert(self.face_fits(m, r, f, i));
            assert(m2.face_vertices(f) == m.face_vertices(f));
        }
        assert forall|j: int| c <= j < diagonals.len() implies #[trigger] self.diagonal_fits(m2, r, diagonals, j)
            && !r.done.contains(r.tri[j]) by {
            assert(self.diagonal_fits(m, r, diagonals, j));
        }
    }
}

impl<P> MeshModel<P> {
    /// The faces of this base surface that have been cut are live, and are
    /// the homes of the diagonals.
    pub open spec fn round_cut(self, r: Round) -> bool {
        forall|t: int| #[trigger] r.first.contains_key(t) <==> r.tri.contains(t) && self.live_face(t)
    }

    /// At the start of a round no face has been cut.
    pub proof fn lemma_round_cut_start(self)
        ensures
            self.round_cut(self.round_start()),
    {
    }

    /// A split cuts a face for the first time exactly when it makes a
    /// diagonal in it.
    pub proof fn lemma_round_cut_split(self, m: Self, r: Round, diagonals: Seq<IndexType>, i: int)
        requires
            self.wf(),
            m.wf(),
            self.round_ok(m, r, diagonals, i, 0),
            r.done =~= Set::<int>::empty(),
            i < self.stencils().len(),
            self.round_cut(r),
        ensures
            self.round_cut(self.round_split(m, r, i)),
    {
        let e = self.stencils()[i].edge as int;
        let x = m.diamond(e);
        let r2 = self.round_split(m, r, i);
        let tl = r.home[x.fl as int];
        let tr = r.home[x.fr as int];
        self.lemma_round_next(m, r, diagonals, i);
        self.lemma_stencil(i);
        self.lemma_diamond(e);
        m.lemma_diamond(e);
        let flag_l = x.l == self.stencils()[i].far[0];
        let flag_r = x.r == self.stencils()[i].far[1];
        let tri_l = if flag_l { r.tri.push(tl) } else { r.tri };
        assert forall|t: int| #[trigger] r2.first.contains_key(t) <==> r2.tri.contains(t) && self.live_face(t) by {
            if r.tri.contains(t) {
                let j = choose|j: int| 0 <= j < r.tri.len() && r.tri[j] == t;
                assert(tri_l[j] == t);
                assert(r2.tri[j] == t);
            }
            if flag_l {
                assert(tri_l[r.tri.len() as int] == tl);
                assert(r2.tri[r.tri.len() as int] == tl);
            }
            if flag_r {
                assert(r2.tri[tri_l.len() as int] == tr);
            }
            if r2.tri.contains(t) {
                let j = choose|j: int| 0 <= j < r2.tri.len() && r2.tri[j] == t;
                if j < r.tri.len() {
                    assert(r.tri[j] == t);
                }
            }
        }
    }

    /// When every edge has been split, every face of the base surface has
    /// been cut, and the diagonals are as many as those faces.
    pub proof fn lemma_round_diagonals(self, m: Self, r: Round, diagonals: Seq<IndexType>)
        requires
            self.wf(),
            m.wf(),
            self.round_ok(m, r, diagonals, self.stencils().len() as int, 0),
            self.round_cut(r),
        ensures
            diagonals.len() == self.num_faces(),
    {
        let k = self.stencils().len() as int;
        let live = live_indices(self.faces);
        lemma_live_indices(self.faces);
        lemma_live_indices(self.edges);
        assert forall|a: int, b: int| 0 <= a < live.len() && 0 <= b < live.len() && a != b implies live[a] != live[b] by {
            if a < b {
                lemma_live_ascending(self.faces, a, b);
            } else {
                lemma_live_ascending(self.faces, b, a);
            }
        }
        assert forall|j1: int, j2: int| 0 <= j1 < r.tri.len() && 0 <= j2 < r.tri.len() && j1 != j2 implies r.tri[j1]
            != r.tri[j2] by {
            if j1 < j2 {
                assert(r.tri[j1] != r.tri[j2]);
            } else {
                assert(r.tri[j2] != r.tri[j1]);
            }
        }
        assert forall|t: int| live.to_set().contains(t) <==> r.tri.to_set().contains(t) by {
            if live.contains(t) {
                let a = choose|a: int| 0 <= a < live.len() && live[a] == t;
                assert(self.live_face(t));
                assert(self.face_ok(t));
                let h = self.face_rep(t);
                self.lemma_around(h);
                let e = self.edge_of(h);
                assert(self.edge_ok(e));
                lemma_rank(self.edges, e);
                let j = crate::data_structure::slots::count_live(self.edges.take(e)) as int;
                assert(self.stencils()[j].edge == e);
                assert(self.edge_kept(m, r, j, k));
                self.lemma_diamond(e);
                assert(r.first.contains_key(t));
            }
            if r.tri.contains(t) {
                let j = choose|j: int| 0 <= j < r.tri.len() && r.tri[j] == t;
                assert(self.diagonal_fits(m, r, diagonals, j));
                assert(r.first.contains_key(t));
                lemma_rank(self.faces, t);
            }
        }
        assert(live.to_set() =~= r.tri.to_set());
        live.unique_seq_to_set();
        r.tri.unique_seq_to_set();
    }
}

} // verus!
