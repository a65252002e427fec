//! Isotropic remeshing: the splits, the collapses and the flips.
use std::collections::HashSet;
use vstd::prelude::*;
use crate::data_structure::half_edge::HalfEdge;
use crate::data_structure::slots::lemma_count_live_update;
use crate::data_structure::model::IndexType;
use crate::data_structure::model::MeshModel;

verus! {
/// Isotropic remeshing: long edges are split, short edges collapsed, and
/// edges flipped where that brings the degrees of the vertices nearer to six.
pub struct Remesh {
    iterations: u32,
    no_collapse: bool,
}

/// An edge and the position for the vertex that a split or a collapse of it
/// leaves.
pub struct EdgeTarget<P> {
    pub edge: IndexType,
    pub position: P,
}

/// Why a phase of remeshing was not carried out.  Nothing was changed.
#[derive(Clone, Copy, Debug, PartialEq, Eq)]
pub enum RemeshError {
    /// The slot arrays cannot take what the splits append.
    TooLarge,
    /// One of the edges named is not live.
    DeadEdge,
}

/// The distance between `a` and `b`.
pub open spec fn apart(a: int, b: int) -> int {
    if a >= b {
        a - b
    } else {
        b - a
    }
}

/// Flipping an edge brings the degrees nearer to what they should be: the
/// ends of the edge have degrees `left` and `right` and lose an edge each,
/// the apexes have degrees `top` and `bottom` and gain one each.  The ends
/// must keep three edges at least.
pub open spec fn flip_improves(left: int, right: int, top: int, bottom: int) -> bool {
    &&& apart(left, 7) + apart(right, 7) + apart(top, 5) + apart(bottom, 5) < apart(left, 6) + apart(right, 6) + apart(
        top,
        6,
    ) + apart(bottom, 6)
    &&& left > 3
    &&& right > 3
}

/// The distance between a degree and what it should be.
fn distance(a: usize, b: u64) -> (r: u64)
    requires
        b <= 7,
        a <= u32::MAX,
    ensures
        r == apart(a as int, b as int),
{
    if a as u64 >= b {
        a as u64 - b
    } else {
        b - a as u64
    }
}

/// Whether flipping an edge brings the degrees of the four vertices around
/// it nearer to six.
pub fn improves_valence(left: usize, right: usize, top: usize, bottom: usize) -> (r: bool)
    requires
        left <= u32::MAX,
        right <= u32::MAX,
        top <= u32::MAX,
        bottom <= u32::MAX,
    ensures
        r == flip_improves(left as int, right as int, top as int, bottom as int),
{
    let flip_dev: u64 = distance(left, 7) + distance(right, 7) + distance(top, 5) + distance(bottom, 5);
    let no_flip_dev: u64 = distance(left, 6) + distance(right, 6) + distance(top, 6) + distance(bottom, 6);
    flip_dev < no_flip_dev && left > 3 && right > 3
}

impl<P> MeshModel<P> {
    /// The surface after the first `n` of `targets` had their edges split,
    /// each new vertex being put at the target's position.
    pub open spec fn split_each(self, targets: Seq<EdgeTarget<P>>, n: nat) -> Self
        decreases n,
    {
        if n == 0 {
            self
        } else {
            let m = self.split_each(targets, (n - 1) as nat);
            let t = targets[n - 1];
            m.split(t.edge as int).with_position(m.fresh().m as int, t.position)
        }
    }

    /// The surface after the first `n` of `targets` had their turn at being
    /// collapsed, and the edges that those collapses removed or changed.  A
    /// target whose edge is among these is passed over; so is one that the
    /// surface does not allow.  After a collapse the vertex that stays is
    /// put at the target's position.
    pub open spec fn collapse_each(self, targets: Seq<EdgeTarget<P>>, n: nat) -> (Self, Set<IndexType>)
        decreases n,
    {
        if n == 0 {
            (self, Set::empty())
        } else {
            let (m, touched) = self.collapse_each(targets, (n - 1) as nat);
            let t = targets[n - 1];
            let e = t.edge as int;
            if touched.contains(t.edge) || !m.collapse_legal(e) {
                (m, touched)
            } else {
                (
                    m.collapse(e).with_position(m.diamond(e).q as int, t.position),
                    touched.union(m.collapse_removed(e).to_set()).union(
                        m.collapse_modified(e).map_values(|p: (IndexType, IndexType)| p.0).to_set(),
                    ),
                )
            }
        }
    }

    /// Whether the valence rule asks for a flip of live edge `e`.
    pub open spec fn wants_flip(self, e: int) -> bool {
        let x = self.diamond(e);
        flip_improves(
            self.degree(x.o as int) as int,
            self.degree(x.q as int) as int,
            self.degree(x.l as int) as int,
            self.degree(x.r as int) as int,
        )
    }

    /// The surface after the edges below `n` had their turn at being
    /// flipped: a live edge is flipped when the valence rule asks for it and
    /// the flip is legal.
    pub open spec fn valence_flips(self, n: nat) -> Self
        decreases n,
    {
        if n == 0 {
            self
        } else {
            let m = self.valence_flips((n - 1) as nat);
            let e = n - 1;
            if m.live_edge(e) && m.wants_flip(e) && m.flip_legal(e) {
                m.flip(e)
            } else {
                m
            }
        }
    }
}

impl Remesh {
    /// Settings for remeshing.
    pub fn new(iterations: u32, no_collapse: bool) -> (r: Self)
        ensures
            r.iterations() == iterations,
            r.no_collapse() == no_collapse,
    {
        Remesh { iterations, no_collapse }
    }

    /// The number of rounds to carry out.
    pub closed spec fn iterations(&self) -> u32 {
        self.iterations
    }

    /// Whether the collapse phase is left out.
    pub closed spec fn no_collapse(&self) -> bool {
        self.no_collapse
    }

    /// The number of rounds to carry out.
    pub fn get_iterations(&self) -> (r: u32)
        ensures
            r == self.iterations(),
    {
        self.iterations
    }

    /// Whether the collapse phase is left out.
    pub fn get_no_collapse(&self) -> (r: bool)
        ensures
            r == self.no_collapse(),
    {
        self.no_collapse
    }

    /// Whether every target names a live edge.
    fn all_live<P: Copy>(mesh: &HalfEdge<P>, targets: &Vec<EdgeTarget<P>>) -> (r: bool)
        ensures
            r == forall|i: int| 0 <= i < targets@.len() ==> mesh@.live_edge((#[trigger] targets@[i]).edge as int),
    {
        let mut i: usize = 0;
        while i < targets.len()
            invariant
                i <= targets@.len(),
                forall|j: int| 0 <= j < i ==> mesh@.live_edge((#[trigger] targets@[j]).edge as int),
            decreases targets.len() - i,
        {
            if !mesh.is_live_edge(targets[i].edge) {
                return false;
            }
            i = i + 1;
        }
        true
    }

    /// Splits the edges of `targets`, in order, and puts each new vertex at
    /// the target's position.
    pub fn split_long<P: Copy>(mesh: &mut HalfEdge<P>, targets: &Vec<EdgeTarget<P>>) -> (r: Result<(), RemeshError>)
        requires
            old(mesh).wf(),
        ensures
            final(mesh).wf(),
            r == Err::<(), RemeshError>(RemeshError::TooLarge) <==> !old(mesh)@.room_for_splits(targets@.len() as int),
            r == Err::<(), RemeshError>(RemeshError::DeadEdge) <==> old(mesh)@.room_for_splits(targets@.len() as int)
                && !(forall|i: int| 0 <= i < targets@.len() ==> old(mesh)@.live_edge((#[trigger] targets@[i]).edge as int)),
            r is Err ==> *final(mesh) == *old(mesh),
            r is Ok ==> final(mesh)@ == old(mesh)@.split_each(targets@, targets@.len()),
            r is Ok ==> final(mesh)@.num_vertices() == old(mesh)@.num_vertices() + targets@.len(),
            r is Ok ==> final(mesh)@.num_edges() == old(mesh)@.num_edges() + 3 * targets@.len(),
            r is Ok ==> final(mesh)@.num_faces() == old(mesh)@.num_faces() + 2 * targets@.len(),
    {
        let k: usize = targets.len();
        if !mesh.has_room_for_splits(k) {
            return Err(RemeshError::TooLarge);
        }
        if !Self::all_live(mesh, targets) {
            return Err(RemeshError::DeadEdge);
        }
        let ghost before = mesh@;
        let mut i: usize = 0;
        while i < k
            invariant
                mesh.wf(),
                k == targets@.len(),
                i <= k,
                before.room_for_splits(k as int),
                mesh@ == before.split_each(targets@, i as nat),
                mesh@.half_edges.len() == before.half_edges.len() + 6 * i,
                mesh@.vertices.len() == before.vertices.len() + i,
                mesh@.edges.len() == before.edges.len() + 3 * i,
                mesh@.faces.len() == before.faces.len() + 2 * i,
                mesh@.num_vertices() == before.num_vertices() + i,
                mesh@.num_edges() == before.num_edges() + 3 * i,
                mesh@.num_faces() == before.num_faces() + 2 * i,
                forall|d: int| before.live_edge(d) ==> #[trigger] mesh@.live_edge(d),
                forall|j: int| 0 <= j < k ==> before.live_edge((#[trigger] targets@[j]).edge as int),
            decreases k - i,
        {
            let ghost m0 = mesh@;
            proof {
                assert(before.live_edge(targets@[i as int].edge as int));
                m0.lemma_split(targets@[i as int].edge as int);
            }
            let (new_vertex, _) = mesh.split_edge(targets[i].edge);
            let ghost m1 = mesh@;
            mesh.set_position(new_vertex, &targets[i].position);
            proof {
                lemma_count_live_update(m1.vertices, new_vertex as int, mesh@.vertices[new_vertex as int]);
                assert forall|d: int| before.live_edge(d) implies #[trigger] mesh@.live_edge(d) by {
                    assert(m0.live_edge(d));
                    assert(m1.live_edge(d));
                }
            }
            i = i + 1;
        }
        Ok(())
    }

    /// Gives each of `targets`, in order, its turn at being collapsed, and
    /// puts the vertex that stays at the target's position.  A target is
    /// passed over when an earlier collapse removed or changed its edge, or
    /// when the surface does not allow the collapse.  The result is the number
    /// of collapses.
    pub fn collapse_short<P: Copy>(mesh: &mut HalfEdge<P>, targets: &Vec<EdgeTarget<P>>) -> (r: Result<
        usize,
        RemeshError,
    >)
        requires
            old(mesh).wf(),
        ensures
            final(mesh).wf(),
            r is Err <==> !(forall|i: int|
                0 <= i < targets@.len() ==> old(mesh)@.live_edge((#[trigger] targets@[i]).edge as int)),
            r is Err ==> r == Err::<usize, RemeshError>(RemeshError::DeadEdge) && *final(mesh) == *old(mesh),
            r matches Ok(count) ==> {
                &&& final(mesh)@ == old(mesh)@.collapse_each(targets@, targets@.len()).0
                &&& final(mesh)@.num_vertices() + count == old(mesh)@.num_vertices()
                &&& final(mesh)@.num_edges() + 3 * count == old(mesh)@.num_edges()
                &&& final(mesh)@.num_faces() + 2 * count == old(mesh)@.num_faces()
            },
    {
        if !Self::all_live(mesh, targets) {
            return Err(RemeshError::DeadEdge);
        }
        let ghost before = mesh@;
        let mut removed: HashSet<IndexType> = HashSet::new();
        let mut store_removed: Vec<IndexType> = Vec::new();
        let mut store_modified: Vec<(IndexType, IndexType)> = Vec::new();
        let mut count: usize = 0;
        let k: usize = targets.len();
        let mut i: usize = 0;
        proof {
            crate::data_structure::slots::lemma_count_live_bound(before.vertices);
        }
        while i < k
            invariant
                mesh.wf(),
                k == targets@.len(),
                i <= k,
                count <= i,
                (mesh@, removed@) == before.collapse_each(targets@, i as nat),
                mesh@.edges.len() == before.edges.len(),
                mesh@.num_vertices() + count == before.num_vertices(),
                mesh@.num_edges() + 3 * count == before.num_edges(),
                mesh@.num_faces() + 2 * count == before.num_faces(),
                forall|d: int| before.live_edge(d) && !removed@.contains(d as IndexType) ==> #[trigger] mesh@.live_edge(d),
                forall|j: int| 0 <= j < k ==> before.live_edge((#[trigger] targets@[j]).edge as int),
            decreases k - i,
        {
            let edge: IndexType = targets[i].edge;
            let ghost m0 = mesh@;
            let ghost t0 = removed@;
            proof {
                broadcast use vstd::std_specs::hash::group_hash_axioms;

                assert(before.live_edge(targets@[i as int].edge as int));
            }
            if !removed.contains(&edge) {
                proof {
                    assert(m0.live_edge(edge as int));
                    if m0.collapse_legal(edge as int) {
                        m0.lemma_collapse(edge as int);
                        m0.lemma_collapse_reports(edge as int);
                        m0.lemma_diamond(edge as int);
                    }
                }
                match mesh.collapse_edge(edge, &mut store_modified, &mut store_removed) {
                    Some(vertex_idx) => {
                        let ghost m1 = mesh@;
                        mesh.set_position(vertex_idx, &targets[i].position);
                        proof {
                            lemma_count_live_update(m1.vertices, vertex_idx as int, mesh@.vertices[vertex_idx as int]);
                        }
                        count = count + 1;
                    },
                    None => {},
                }
                let ghost gone = store_removed@;
                let ghost changed = store_modified@;
                let mut j: usize = 0;
                while j < store_removed.len()
                    invariant
                        j <= gone.len(),
                        gone == store_removed@,
                        removed@ == t0.union(gone.take(j as int).to_set()),
                    decreases store_removed.len() - j,
                {
                    proof {
                        assert(gone.take(j + 1) =~= gone.take(j as int).push(gone[j as int]));
                        lemma_to_set_push(gone.take(j as int), gone[j as int]);
                    }
                    removed.insert(store_removed[j]);
                    proof {
                        assert(removed@ =~= t0.union(gone.take(j + 1).to_set()));
                    }
                    j = j + 1;
                }
                let ghost t1 = removed@;
                let ghost firsts = changed.map_values(|p: (IndexType, IndexType)| p.0);
                let mut j: usize = 0;
                proof {
                    assert(gone.take(gone.len() as int) =~= gone);
                    assert(firsts.take(0).to_set() =~= Set::<IndexType>::empty());
                    assert(removed@ =~= t1.union(firsts.take(0).to_set()));
                }
                while j < store_modified.len()
                    invariant
                        j <= changed.len(),
                        changed == store_modified@,
                        firsts == changed.map_values(|p: (IndexType, IndexType)| p.0),
                        removed@ == t1.union(firsts.take(j as int).to_set()),
                    decreases store_modified.len() - j,
                {
                    proof {
                        assert(firsts.take(j + 1) =~= firsts.take(j as int).push(firsts[j as int]));
                        lemma_to_set_push(firsts.take(j as int), firsts[j as int]);
                    }
                    removed.insert(store_modified[j].0);
                    proof {
                        assert(removed@ =~= t1.union(firsts.take(j + 1).to_set()));
                    }
                    j = j + 1;
                }
                proof {
                    assert(firsts.take(firsts.len() as int) =~= firsts);
                    if m0.collapse_legal(edge as int) {
                        assert forall|d: int| before.live_edge(d) && !removed@.contains(d as IndexType) implies #[trigger] mesh@.live_edge(
                            d,
                        ) by {
                            assert(!t0.contains(d as IndexType));
                            assert(m0.live_edge(d));
                            if !m0.collapse(edge as int).live_edge(d) {
                                m0.lemma_removed_complete(edge as int, d);
                                assert(gone.to_set().contains(d as IndexType));
                            }
                        }
                    } else {
                        assert(gone =~= Seq::empty());
                        assert(changed =~= Seq::empty());
                        assert(removed@ =~= t0);
                    }
                }
            }
            i = i + 1;
        }
        Ok(count)
    }

    /// Gives every edge, in ascending order, its turn at being flipped: a
    /// live edge is flipped when that brings the degrees of the four vertices
    /// around it nearer to six, the ends keep three edges at least, and the
    /// flip is legal.  The result is the number of flips.
    pub fn flip_for_valence<P: Copy>(mesh: &mut HalfEdge<P>) -> (r: usize)
        requires
            old(mesh).wf(),
        ensures
            final(mesh).wf(),
            final(mesh)@ == old(mesh)@.valence_flips(old(mesh)@.edges.len()),
            final(mesh)@.edges == old(mesh)@.edges,
            final(mesh)@.num_vertices() == old(mesh)@.num_vertices(),
            final(mesh)@.num_edges() == old(mesh)@.num_edges(),
            final(mesh)@.num_faces() == old(mesh)@.num_faces(),
    {
        let ghost before = mesh@;
        let n: usize = mesh.max_idx_edges();
        let mut flips: usize = 0;
        let mut e: usize = 0;
        while e < n
            invariant
                mesh.wf(),
                n == before.edges.len(),
                e <= n,
                flips <= e,
                mesh@ == before.valence_flips(e as nat),
                mesh@.edges == before.edges,
                mesh@.num_vertices() == before.num_vertices(),
                mesh@.num_edges() == before.num_edges(),
                mesh@.num_faces() == before.num_faces(),
            decreases n - e,
        {
            if mesh.is_live_edge(e as IndexType) {
                let (near, bottom_op) = mesh.get_edge_neighbors(e as IndexType);
                let bottom: IndexType = bottom_op.unwrap();
                proof {
                    mesh@.lemma_diamond(e as int);
                    mesh@.lemma_vertex_ring(near[0] as int);
                    mesh@.lemma_vertex_ring(near[1] as int);
                    mesh@.lemma_vertex_ring(near[2] as int);
                    mesh@.lemma_vertex_ring(bottom as int);
                    if mesh@.flip_legal(e as int) {
                        mesh@.lemma_flip(e as int);
                    }
                }
                let l_degree: usize = mesh.degree(near[0]);
                let r_degree: usize = mesh.degree(near[1]);
                let top_degree: usize = mesh.degree(near[2]);
                let bottom_degree: usize = mesh.degree(bottom);
                if improves_valence(l_degree, r_degree, top_degree, bottom_degree) {
                    if mesh.flip_edge(e as IndexType).is_some() {
                        flips = flips + 1;
                    }
                }
            }
            e = e + 1;
        }
        flips
    }
}

/// The members of a sequence with one more at its end.
pub proof fn lemma_to_set_push<T>(s: Seq<T>, x: T)
    ensures
        s.push(x).to_set() =~= s.to_set().insert(x),
{
    assert forall|y: T| s.push(x).to_set().contains(y) <==> s.to_set().insert(x).contains(y) by {
        if s.push(x).contains(y) {
            let i = choose|i: int| 0 <= i < s.push(x).len() && s.push(x)[i] == y;
            if i < s.len() {
                assert(s[i] == y);
            }
        }
        if s.contains(y) {
            let i = choose|i: int| 0 <= i < s.len() && s[i] == y;
            assert(s.push(x)[i] == y);
        }
        if y == x {
            assert(s.push(x)[s.len() as int] == y);
        }
    }
}

} // verus!
