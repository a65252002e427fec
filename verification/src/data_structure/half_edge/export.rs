//! Writing a store out as a list of points and a list of triangles.
use vstd::prelude::*;
use super::HalfEdge;
use super::super::construct::Face;
use super::super::slots::count_live;
use super::super::slots::lemma_count_live_bound;
use super::super::slots::lemma_count_live_take;
use super::super::model::IndexType;
use super::super::model::MeshModel;

verus! {

impl<P> MeshModel<P> {
    /// The number of live vertices below `v`: the place of `v` among the
    /// live vertices.
    pub open spec fn vertex_rank(self, v: int) -> nat {
        count_live(self.vertices.take(v))
    }

    /// The number of live faces below `f`.
    pub open spec fn face_rank(self, f: int) -> nat {
        count_live(self.faces.take(f))
    }

    /// `points` and `faces` list the live vertices and the live faces in
    /// the order of their identifiers, with each corner of a face given as the
    /// place of its vertex in `points`.
    pub open spec fn exported(self, points: Seq<P>, faces: Seq<Face>) -> bool {
        &&& points.len() == self.num_vertices()
        &&& faces.len() == self.num_faces()
        &&& forall|v: int| self.live_vertex(v) ==> points[#[trigger] self.vertex_rank(v) as int] == self.position(v)
        &&& forall|f: int|
            self.live_face(f) ==> {
                let out = faces[#[trigger] self.face_rank(f) as int];
                let (a, b, c) = self.face_vertices(f);
                out[0] == self.vertex_rank(a) && out[1] == self.vertex_rank(b) && out[2] == self.vertex_rank(c)
            }
    }

    /// A live vertex has a place below the number of live vertices.
    pub proof fn lemma_vertex_rank(self, v: int)
        requires
            self.live_vertex(v),
        ensures
            self.vertex_rank(v) < self.num_vertices(),
            self.num_vertices() <= self.vertices.len(),
    {
        lemma_count_live_take(self.vertices, v, self.vertices.len() as int);
        assert(self.vertices.take(self.vertices.len() as int) =~= self.vertices);
        lemma_count_live_bound(self.vertices);
    }
}

impl<P: Copy> HalfEdge<P> {
    /// The surface as a list of points and a list of triangles over them,
    /// without the gaps that removals have left.
    pub fn to_vecs(self) -> (r: (Vec<P>, Vec<Face>))
        requires
            self.wf(),
        ensures
            self@.exported(r.0@, r.1@),
    {
        let nv: usize = self.vertex_refs.len();
        let nf: usize = self.face_refs.len();
        let mut exclusive_sum: Vec<IndexType> = Vec::new();
        let mut points: Vec<P> = Vec::new();
        let mut sum: IndexType = 0;
        let mut i: usize = 0;
        proof {
            assert(self@.vertices.take(0) =~= Seq::empty());
        }
        while i < nv
            invariant
                self.wf(),
                nv == self@.vertices.len(),
                i <= nv,
                exclusive_sum@.len() == i,
                sum == self@.vertex_rank(i as int),
                sum <= i,
                points@.len() == sum,
                forall|v: int| 0 <= v < i ==> #[trigger] exclusive_sum@[v] == self@.vertex_rank(v),
                forall|v: int| 0 <= v < i && self@.live_vertex(v) ==> points@[#[trigger] self@.vertex_rank(v) as int] == self@.position(v),
            decreases nv - i,
        {
            proof {
                assert(self@.vertices.take(i + 1).drop_last() =~= self@.vertices.take(i as int));
                assert forall|v: int| 0 <= v < i && self@.live_vertex(v) implies self@.vertex_rank(v) < sum by {
                    lemma_count_live_take(self@.vertices, v, i as int);
                }
            }
            exclusive_sum.push(sum);
            if self.vertex_refs[i].is_some() {
                points.push(self.get_position(i as IndexType));
                sum = sum + 1;
            }
            i = i + 1;
        }
        let mut faces: Vec<Face> = Vec::new();
        let mut count: usize = 0;
        let mut i: usize = 0;
        proof {
            assert(self@.vertices.take(nv as int) =~= self@.vertices);
            assert(self@.faces.take(0) =~= Seq::empty());
        }
        while i < nf
            invariant
                self.wf(),
                nv == self@.vertices.len(),
                nf == self@.faces.len(),
                i <= nf,
                count == self@.face_rank(i as int),
                count <= i,
                faces@.len() == count,
                exclusive_sum@.len() == nv,
                forall|v: int| 0 <= v < nv ==> #[trigger] exclusive_sum@[v] == self@.vertex_rank(v),
                forall|f: int|
                    0 <= f < i && self@.live_face(f) ==> {
                        let out = faces@[#[trigger] self@.face_rank(f) as int];
                        let (a, b, c) = self@.face_vertices(f);
                        out[0] == self@.vertex_rank(a) && out[1] == self@.vertex_rank(b) && out[2] == self@.vertex_rank(
                            c,
                        )
                    },
            decreases nf - i,
        {
            proof {
                assert(self@.faces.take(i + 1).drop_last() =~= self@.faces.take(i as int));
                assert forall|f: int| 0 <= f < i && self@.live_face(f) implies self@.face_rank(f) < count by {
                    lemma_count_live_take(self@.faces, f, i as int);
                }
            }
            if self.face_refs[i].is_some() {
                let corners: [IndexType; 3] = self.get_face_neighbors(i as IndexType);
                faces.push(
                    [
                        exclusive_sum[corners[0] as usize],
                        exclusive_sum[corners[1] as usize],
                        exclusive_sum[corners[2] as usize],
                    ],
                );
                count = count + 1;
            }
            i = i + 1;
        }
        proof {
            assert(self@.faces.take(nf as int) =~= self@.faces);
        }
        (points, faces)
    }
}

} // verus!
