//! Loop subdivision: the splits and the flips of one round.
use vstd::prelude::*;
use crate::data_structure::half_edge::HalfEdge;
use crate::data_structure::slots::lemma_count_live_bound;
use crate::data_structure::slots::lemma_live_indices;
use crate::data_structure::slots::live_indices;
use crate::data_structure::model::IndexType;
use crate::data_structure::model::MeshModel;
use super::round::Round;

verus! {
/// Loop subdivision: every edge gets a new vertex and every triangle
/// becomes four.
pub struct Subdivide {
    iterations: u32,
}

/// An edge with the four vertices that decide where its new vertex goes: its
/// two ends and the apexes of the two triangles at it.
#[derive(Clone, Copy, Debug, PartialEq, Eq)]
pub struct EdgeStencil {
    pub edge: IndexType,
    pub near: [IndexType; 2],
    pub far: [IndexType; 2],
}

/// Why a round of subdivision was not carried out.  Nothing was changed.
#[derive(Clone, Copy, Debug, PartialEq, Eq)]
pub enum SubdivideError {
    /// The slot arrays cannot take the new vertices, edges and faces.
    TooLarge,
    /// There is not one position for each live edge.
    PositionCount,
}

impl<P> MeshModel<P> {
    /// The stencil of live edge `e`.
    pub open spec fn stencil(self, e: int) -> EdgeStencil {
        let x = self.diamond(e);
        EdgeStencil { edge: e as IndexType, near: [x.o, x.q], far: [x.l, x.r] }
    }

    /// The stencils of the live edges, ascending.
    pub open spec fn stencils(self) -> Seq<EdgeStencil> {
        Seq::new(live_indices(self.edges).len(), |i: int| self.stencil(live_indices(self.edges)[i]))
    }

    /// The surface after the edges of `stencils` are split in order, each
    /// new vertex being put at its place in `points`; and the new edges that
    /// join a new vertex to the apex that the stencil names.
    pub open spec fn split_round(self, stencils: Seq<EdgeStencil>, points: Seq<P>) -> (Self, Seq<IndexType>)
        decreases stencils.len(),
    {
        if stencils.len() == 0 {
            (self, Seq::empty())
        } else {
            let (m, diagonals) = self.split_round(stencils.drop_last(), points.drop_last());
            let s = stencils.last();
            let y = m.fresh();
            let left = m.diamond(s.edge as int).l == s.far[0];
            let right = m.diamond(s.edge as int).r == s.far[1];
            let d1 = if left { diagonals.push(y.e_l) } else { diagonals };
            let d2 = if right { d1.push(y.e_r) } else { d1 };
            (m.split(s.edge as int).with_position(y.m as int, points.last()), d2)
        }
    }

    /// The surface after each of `edges` is flipped, in order.
    pub open spec fn flip_round(self, edges: Seq<IndexType>) -> Self
        decreases edges.len(),
    {
        if edges.len() == 0 {
            self
        } else {
            self.flip_round(edges.drop_last()).flip(edges.last() as int)
        }
    }

    /// One round of subdivision: all live edges are split, then the
    /// diagonals are flipped.
    pub open spec fn refined(self, points: Seq<P>) -> Self {
        let (m, diagonals) = self.split_round(self.stencils(), points);
        m.flip_round(diagonals)
    }
}

impl Subdivide {
    /// Settings for subdivision.
    pub fn new(iterations: u32) -> (r: Self)
        ensures
            r.iterations() == iterations,
    {
        Subdivide { iterations }
    }

    /// The number of rounds to carry out.
    pub closed spec fn iterations(&self) -> u32 {
        self.iterations
    }

    /// The number of rounds to carry out.
    pub fn get_iterations(&self) -> (r: u32)
        ensures
            r == self.iterations(),
    {
        self.iterations
    }

    /// The stencils of the live edges, ascending: what the positions of the
    /// new vertices are computed from.
    pub fn edge_stencils<P: Copy>(mesh: &HalfEdge<P>) -> (r: Vec<EdgeStencil>)
        requires
            mesh.wf(),
        ensures
            r@ == mesh@.stencils(),
            r@.len() == mesh@.num_edges(),
    {
        let n: usize = mesh.max_idx_edges();
        let mut out: Vec<EdgeStencil> = Vec::new();
        let ghost edges = mesh@.edges;
        let mut i: usize = 0;
        proof {
            assert(edges.take(0) =~= Seq::empty());
        }
        while i < n
            invariant
                mesh.wf(),
                edges == mesh@.edges,
                n == edges.len(),
                i <= n,
                out@.len() == live_indices(edges.take(i as int)).len(),
                forall|j: int| 0 <= j < out@.len() ==> #[trigger] out@[j] == mesh@.stencil(live_indices(edges.take(i as int))[j]),
            decreases n - i,
        {
            proof {
                assert(edges.take(i + 1).drop_last() =~= edges.take(i as int));
            }
            if mesh.is_live_edge(i as IndexType) {
                let (near, far_op) = mesh.get_edge_neighbors(i as IndexType);
                let far_1: IndexType = far_op.unwrap();
                proof {
                    mesh@.lemma_diamond(i as int);
                }
                out.push(EdgeStencil { edge: i as IndexType, near: [near[0], near[1]], far: [near[2], far_1] });
            }
            i = i + 1;
        }
        proof {
            assert(edges.take(n as int) =~= edges);
            lemma_live_indices(edges);
            assert(out@ =~= mesh@.stencils());
        }
        out
    }

    /// Carries out one round on the connectivity: splits every live edge,
    /// in ascending order, and puts each new vertex at its place in `points`;
    /// then flips the new edges that join a new vertex to an apex of the
    /// triangles as they were before the round.  There is one such edge for
    /// each of those triangles, and its flip is legal when its turn comes.
    ///
    /// Every triangle becomes four.  The positions of the old vertices are
    /// left alone.
    pub fn refine<P: Copy>(mesh: &mut HalfEdge<P>, points: &Vec<P>) -> (r: Result<(), SubdivideError>)
        requires
            old(mesh).wf(),
        ensures
            final(mesh).wf(),
            r is Ok <==> old(mesh)@.room_for_splits(old(mesh)@.num_edges() as int) && points@.len() == old(
                mesh,
            )@.num_edges(),
            r == Err::<(), SubdivideError>(SubdivideError::TooLarge) <==> !old(mesh)@.room_for_splits(
                old(mesh)@.num_edges() as int,
            ),
            r is Err ==> *final(mesh) == *old(mesh),
            r is Ok ==> {
                &&& final(mesh)@ == old(mesh)@.refined(points@)
                &&& old(mesh)@.split_round(old(mesh)@.stencils(), points@).1.len() == old(mesh)@.num_faces()
                &&& final(mesh)@.num_vertices() == old(mesh)@.num_vertices() + old(mesh)@.num_edges()
                &&& final(mesh)@.num_edges() == 4 * old(mesh)@.num_edges()
                &&& final(mesh)@.num_faces() == 4 * old(mesh)@.num_faces()
                &&& final(mesh)@.euler() == old(mesh)@.euler()
            },
    {
        let stencils: Vec<EdgeStencil> = Self::edge_stencils(mesh);
        let k: usize = stencils.len();
        let ghost before = mesh@;
        proof {
            lemma_count_live_bound(before.edges);
            lemma_live_indices(before.edges);
        }
        if !mesh.has_room_for_splits(k) {
            return Err(SubdivideError::TooLarge);
        }
        if points.len() != k {
            return Err(SubdivideError::PositionCount);
        }
        let mut to_flip: Vec<IndexType> = Vec::new();
        let ghost mut round: Round = before.round_start();
        let mut i: usize = 0;
        proof {
            assert(stencils@.take(0) =~= Seq::empty());
            assert(points@.take(0) =~= Seq::empty());
            before.lemma_round_start();
            before.lemma_round_cut_start();
            assert(to_flip@ =~= Seq::empty());
        }
        while i < k
            invariant
                mesh.wf(),
                before.wf(),
                stencils@ == before.stencils(),
                k == stencils@.len(),
                k == points@.len(),
                k == before.num_edges(),
                i <= k,
                before.room_for_splits(k as int),
                (mesh@, to_flip@) == before.split_round(stencils@.take(i as int), points@.take(i as int)),
                before.round_ok(mesh@, round, to_flip@, i as int, 0),
                before.round_cut(round),
                round.done =~= Set::<int>::empty(),
                mesh@.num_vertices() == before.num_vertices() + i,
                mesh@.num_edges() == before.num_edges() + 3 * i,
                mesh@.num_faces() == before.num_faces() + 2 * i,
            decreases k - i,
        {
            let s: EdgeStencil = stencils[i];
            let ghost m0 = mesh@;
            let ghost flips0 = to_flip@;
            proof {
                assert(stencils@.take(i + 1).drop_last() =~= stencils@.take(i as int));
                assert(points@.take(i + 1).drop_last() =~= points@.take(i as int));
                assert(stencils@.take(i + 1).last() == s);
                assert(points@.take(i + 1).last() == points@[i as int]);
                before.lemma_round_next(m0, round, flips0, i as int);
                m0.lemma_split(s.edge as int);
                m0.lemma_diamond(s.edge as int);
                before.lemma_round_split(m0, round, flips0, i as int);
                before.lemma_round_cut_split(m0, round, flips0, i as int);
            }
            let (new_vertex, new_edges) = mesh.split_edge(s.edge);
            let ghost m1 = mesh@;
            mesh.set_position(new_vertex, &points[i]);
            let new_l: IndexType = new_edges[0];
            let new_r: IndexType = new_edges[1];
            let ends_l: [IndexType; 2] = mesh.get_endpoints(new_l);
            let ends_r: [IndexType; 2] = mesh.get_endpoints(new_r);
            proof {
                assert(mesh@.endpoints(new_l as int) == m1.endpoints(new_l as int));
                assert(mesh@.endpoints(new_r as int) == m1.endpoints(new_r as int));
                crate::data_structure::slots::lemma_count_live_update(
                    m1.vertices,
                    new_vertex as int,
                    mesh@.vertices[new_vertex as int],
                );
            }
            if ends_l[0] == s.far[0] || ends_l[1] == s.far[0] {
                to_flip.push(new_l);
            }
            if ends_r[0] == s.far[1] || ends_r[1] == s.far[1] {
                to_flip.push(new_r);
            }
            proof {
                before.lemma_stencil(i as int);
                let x = m0.diamond(s.edge as int);
                assert(m0.far_left(s.edge as int) == x.l && m0.far_right(s.edge as int) == x.r);
                assert(ends_l[0] == m0.fresh().m && ends_l[1] == x.l);
                assert(ends_r[0] == m0.fresh().m && ends_r[1] == x.r);
                assert((s.far[0] as int) < before.vertices.len());
                assert((s.far[1] as int) < before.vertices.len());
                assert(to_flip@ =~= before.diagonals_split(m0, flips0, i as int));
                round = before.round_split(m0, round, i as int);
                before.lemma_round_moved(m1, round, to_flip@, i + 1, 0, new_vertex as int, points@[i as int]);
            }
            i = i + 1;
        }
        proof {
            assert(stencils@.take(k as int) =~= stencils@);
            assert(points@.take(k as int) =~= points@);
            assert(to_flip@.take(0) =~= Seq::empty());
            before.lemma_round_diagonals(mesh@, round, to_flip@);
        }
        let ghost middle = mesh@;
        let mut j: usize = 0;
        while j < to_flip.len()
            invariant
                mesh.wf(),
                before.wf(),
                k == before.stencils().len(),
                j <= to_flip@.len(),
                mesh@ == middle.flip_round(to_flip@.take(j as int)),
                before.round_ok(mesh@, round, to_flip@, k as int, j as int),
                mesh@.num_vertices() == middle.num_vertices(),
                mesh@.num_edges() == middle.num_edges(),
                mesh@.num_faces() == middle.num_faces(),
            decreases to_flip.len() - j,
        {
            let ghost m0 = mesh@;
            proof {
                assert(to_flip@.take(j + 1).drop_last() =~= to_flip@.take(j as int));
                before.lemma_round_flip(m0, round, to_flip@, j as int);
                m0.lemma_flip(to_flip@[j as int] as int);
            }
            let flipped: Option<()> = mesh.flip_edge(to_flip[j]);
            proof {
                assert(flipped is Some);
                round = before.round_flip(round, j as int);
            }
            j = j + 1;
        }
        proof {
            assert(to_flip@.take(to_flip@.len() as int) =~= to_flip@);
        }
        Ok(())
    }
}

} // verus!
