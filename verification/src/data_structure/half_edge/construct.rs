//! Making a store from a list of points and a list of triangles.
use std::collections::HashMap;
use vstd::prelude::*;
use super::HalfEdge;
use super::super::slots::lemma_count_all_live;
use super::super::assemble::lemma_glued_built;
use super::super::construct::build_error;
use super::super::construct::built;
use super::super::construct::corners_in_range;
use super::super::construct::pair_key;
use super::super::construct::Draft;
use super::super::construct::Face;
use super::super::construct::MeshError;
use super::super::disassemble::lemma_built_closed;
use super::super::gluing::closed_manifold;
use super::super::gluing::glued;
use super::super::gluing::lemma_closed_manifold_fits;
use super::super::gluing::Gluing;
use super::super::slots::lemma_count_live_push;
use super::super::model::EdgeRef;
use super::super::model::FaceRef;
use super::super::model::HalfEdgeRef;
use super::super::model::IndexType;
use super::super::model::VertexRef;

verus! {
/// A store under construction, with the tables that pair up twins and
/// number the vertices.
struct Builder<P> {
    mesh: HalfEdge<P>,
    ids: HashMap<IndexType, IndexType>,
    waiting: HashMap<u64, IndexType>,
}

impl<P: Copy> Builder<P> {
    /// The store under construction as a draft.
    spec fn draft(&self) -> Draft<P> {
        Draft { mesh: self.mesh@, ids: self.ids@, waiting: self.waiting@ }
    }

    /// Nothing has been removed.
    spec fn no_removals(&self) -> bool {
        self.mesh.num_removed_vertices == 0 && self.mesh.num_removed_edges == 0 && self.mesh.num_removed_faces == 0
    }

    /// Adds the side from point `a` to point `b` of face `face_idx` as the next
    /// half-edge.
    fn add_side(&mut self, points: &Vec<P>, a: IndexType, b: IndexType, next_idx: IndexType, face_idx: IndexType)
        requires
            old(self).draft().sound(old(self).mesh@.half_edges.len() as int),
            old(self).mesh@.half_edges.len() < u32::MAX,
            old(self).no_removals(),
            (a as int) < points@.len(),
        ensures
            final(self).draft() == old(self).draft().add_side(points@, a, b, next_idx, face_idx),
            final(self).draft().sound(old(self).mesh@.half_edges.len() as int + 1),
            final(self).mesh@.faces == old(self).mesh@.faces,
            final(self).no_removals(),
    {
        let ghost before = self.draft();
        let h: IndexType = self.mesh.half_edge_refs.len() as IndexType;
        let v: IndexType = match self.ids.get(&a) {
            Some(v) => *v,
            None => {
                let v: IndexType = self.mesh.vertex_refs.len() as IndexType;
                self.ids.insert(a, v);
                proof {
                    lemma_count_live_push(
                        self.mesh.vertex_refs@,
                        Some(VertexRef { half_edge_idx: h, vertex: points@[a as int] }),
                    );
                }
                self.mesh.vertex_refs.push(Some(VertexRef { half_edge_idx: h, vertex: points[a as usize] }));
                v
            },
        };
        let key: u64 = (a as u64) * 0x1_0000_0000 + (b as u64);
        let back: u64 = (b as u64) * 0x1_0000_0000 + (a as u64);
        assert(key == pair_key(a, b) && back == pair_key(b, a));
        let twin_idx: Option<IndexType> = match self.waiting.get(&key) {
            Some(t) => Some(*t),
            None => None,
        };
        proof {
            broadcast use vstd::std_specs::hash::group_hash_axioms;

            match twin_idx {
                Some(t) => {
                    assert(before.waiting.contains_key(key) && before.waiting[key] == t);
                },
                None => {
                    assert(!before.waiting.contains_key(key));
                },
            }
        }
        let edge_idx: IndexType = match twin_idx {
            Some(t) => {
                self.mesh.half_edge_refs[t as usize].twin_idx = Some(h);
                self.mesh.half_edge_refs[t as usize].edge_idx
            },
            None => {
                self.waiting.insert(back, h);
                let e: IndexType = self.mesh.edge_refs.len() as IndexType;
                proof {
                    lemma_count_live_push(self.mesh.edge_refs@, Some(EdgeRef { half_edge_idx: h }));
                }
                self.mesh.edge_refs.push(Some(EdgeRef { half_edge_idx: h }));
                e
            },
        };
        self.mesh.half_edge_refs.push(HalfEdgeRef { twin_idx, next_idx, vertex_idx: v, edge_idx, face_idx });
        proof {
            let after = before.add_side(points@, a, b, next_idx, face_idx);
            assert(self.draft().mesh.half_edges =~= after.mesh.half_edges);
            assert(self.draft().mesh.vertices =~= after.mesh.vertices);
            assert(self.draft().mesh.edges =~= after.mesh.edges);
            assert(self.draft().ids =~= after.ids);
            assert(self.draft().waiting =~= after.waiting);
        }
    }
}

/// Whether every corner of every triangle names one of `count` points.
fn check_corners(count: usize, faces: &Vec<Face>) -> (r: bool)
    ensures
        r == corners_in_range(count as int, faces@),
{
    let mut i: usize = 0;
    while i < faces.len()
        invariant
            i <= faces@.len(),
            forall|j: int, c: int| 0 <= j < i && 0 <= c < 3 ==> (#[trigger] faces@[j][c] as int) < count,
        decreases faces.len() - i,
    {
        let face: Face = faces[i];
        if face[0] as usize >= count || face[1] as usize >= count || face[2] as usize >= count {
            proof {
                let c = if face[0] as usize >= count { 0int } else if face[1] as usize >= count { 1int } else { 2int };
                assert(!((faces@[i as int][c] as int) < count));
            }
            return false;
        }
        i = i + 1;
    }
    true
}

impl<P: Copy> HalfEdge<P> {
    /// Makes a half-edge store from a list of points and a list of
    /// triangles over them.
    ///
    /// Vertices are numbered in the order in which the triangles first name
    /// their points; points that no triangle names are left out.  Face `i` is
    /// triangle `i`, and its sides are the half-edges `3 i`, `3 i + 1` and
    /// `3 i + 2`.  Edges are numbered in the order in which their first side
    /// comes.
    ///
    /// The triangles must form a closed manifold surface without loops or
    /// repeated edges, in which the two triangles at an edge never share
    /// their third corner; otherwise an error says what is wrong.
    pub fn from_iters(vertices: Vec<P>, faces: Vec<Face>) -> (r: Result<Self, MeshError>)
        ensures
            r is Ok <==> closed_manifold(vertices@.len() as int, faces@),
            match r {
                Ok(mesh) => build_error(vertices@, faces@) is None && mesh.wf() && mesh@ == built(vertices@, faces@),
                Err(e) => build_error(vertices@, faces@) == Some(e),
            },
    {
        if faces.len() > 0x5555_5555 {
            return Err(MeshError::TooLarge);
        }
        if !check_corners(vertices.len(), &faces) {
            proof {
                if closed_manifold(vertices@.len() as int, faces@) {
                    lemma_closed_manifold_fits(vertices@.len() as int, faces@);
                }
            }
            return Err(MeshError::VertexOutOfRange);
        }
        let mut b: Builder<P> = Builder {
            mesh: HalfEdge {
                half_edge_refs: Vec::new(),
                vertex_refs: Vec::new(),
                edge_refs: Vec::new(),
                face_refs: Vec::new(),
                num_removed_vertices: 0,
                num_removed_edges: 0,
                num_removed_faces: 0,
            },
            ids: HashMap::new(),
            waiting: HashMap::new(),
        };
        proof {
            assert(faces@.take(0) =~= Seq::empty());
            assert(b.draft().mesh.half_edges =~= Draft::<P>::empty().mesh.half_edges);
            assert(b.draft().mesh.vertices =~= Draft::<P>::empty().mesh.vertices);
            assert(b.draft().mesh.edges =~= Draft::<P>::empty().mesh.edges);
            assert(b.draft().mesh.faces =~= Draft::<P>::empty().mesh.faces);
            assert(b.draft().ids =~= Draft::<P>::empty().ids);
            assert(b.draft().waiting =~= Draft::<P>::empty().waiting);
        }
        let mut i: usize = 0;
        while i < faces.len()
            invariant
                faces@.len() <= 0x5555_5555,
                corners_in_range(vertices@.len() as int, faces@),
                i <= faces@.len(),
                b.draft() == Draft::of(vertices@, faces@.take(i as int)),
                b.draft().sound(3 * i as int),
                b.mesh@.faces.len() == i,
                b.no_removals(),
            decreases faces.len() - i,
        {
            let face: Face = faces[i];
            let start: IndexType = (3 * i) as IndexType;
            let f: IndexType = i as IndexType;
            let ghost d0 = b.draft();
            proof {
                assert(faces@.take(i + 1).drop_last() =~= faces@.take(i as int));
                assert(faces@.take(i + 1).last() == face);
                assert((faces@[i as int][0] as int) < vertices@.len());
                assert((faces@[i as int][1] as int) < vertices@.len());
                assert((faces@[i as int][2] as int) < vertices@.len());
            }
            b.add_side(&vertices, face[0], face[1], start + 1, f);
            b.add_side(&vertices, face[1], face[2], start + 2, f);
            b.add_side(&vertices, face[2], face[0], start, f);
            proof {
                lemma_count_live_push(b.mesh.face_refs@, Some(FaceRef { half_edge_idx: start }));
            }
            b.mesh.face_refs.push(Some(FaceRef { half_edge_idx: start }));
            proof {
                let after = d0.add_face(vertices@, face);
                assert(b.draft().mesh.faces =~= after.mesh.faces);
                assert(b.draft() == after);
            }
            i = i + 1;
        }
        proof {
            assert(faces@.take(faces@.len() as int) =~= faces@);
        }
        let mesh: HalfEdge<P> = b.mesh;
        let ok: bool = mesh.check_all();
        proof {
            if ok {
                lemma_built_closed(vertices@, faces@);
            } else if closed_manifold(vertices@.len() as int, faces@) {
                let w = choose|w: Gluing| glued(vertices@.len() as int, faces@, w);
                lemma_glued_built(vertices@, faces@, w);
                lemma_count_all_live(mesh@.vertices);
                lemma_count_all_live(mesh@.edges);
                lemma_count_all_live(mesh@.faces);
            }
        }
        if ok {
            Ok(mesh)
        } else {
            Err(MeshError::NotClosedManifold)
        }
    }
}

} // verus!
