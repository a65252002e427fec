//! Simplification: the scheduler that decides which edge is collapsed next.
use vstd::multiset::Multiset;
use vstd::prelude::*;
use super::queue::EdgeCost;
use super::queue::EdgeQueue;
use crate::data_structure::slots::lemma_live_indices;
use crate::data_structure::slots::lemma_live_prefix;
use crate::data_structure::slots::live_indices;
use crate::data_structure::half_edge::HalfEdge;
use crate::data_structure::slots::lemma_count_live_bound;
use crate::data_structure::model::IndexType;
use crate::data_structure::model::MeshModel;

verus! {

broadcast use {vstd::multiset::group_multiset_axioms, vstd::multiset::group_multiset_properties};

/// Simplification by collapsing the cheapest edges first, until a number of
/// faces is gone.
pub struct Simplify {
    faces_to_remove: u32,
}

/// What is known of an edge that may be collapsed: where the vertex that
/// stays should go, the two ends, and how often the cost has been
/// recomputed.
pub struct EdgeInfo<P> {
    pub best_position: P,
    pub first: IndexType,
    pub second: IndexType,
    pub count: u32,
}

/// A result computed for an edge: where the vertex that stays should go, and
/// a number that orders the costs (less is cheaper).
pub struct EdgeResult<P> {
    pub best_position: P,
    pub cost: u32,
}

/// The scheduler of a simplification: the queue of candidates, the table of
/// what is known of each edge, and the number of faces to stop at.
pub struct SimplifyState<P> {
    queue: EdgeQueue,
    edge_info: Vec<Option<EdgeInfo<P>>>,
    final_num_faces: usize,
    modified_edges: Vec<(IndexType, IndexType)>,
    removed_edges: Vec<IndexType>,
}

/// The scheduler as mathematical values.
pub ghost struct SimplifyModel<P> {
    pub queue: Multiset<EdgeCost>,
    pub edge_info: Seq<Option<EdgeInfo<P>>>,
    pub target: nat,
    /// The edges that the last collapse left at the merged vertex, each with
    /// its other end.
    pub modified: Seq<(IndexType, IndexType)>,
}

/// What one step of the scheduler came to.
#[derive(Clone, Copy, Debug, PartialEq, Eq)]
pub enum SimplifyStep {
    /// The surface has no more faces than asked for.
    Done,
    /// The queue ran empty before that.
    QueueEmpty,
    /// The edge of `entry` was collapsed into `new_vertex`; `first` and
    /// `second` were its recorded ends.  The costs of the edges at
    /// `new_vertex` are to be computed again.
    Collapsed { entry: EdgeCost, new_vertex: IndexType, first: IndexType, second: IndexType },
}

/// `e` is one of `edges`.
pub open spec fn lists(edges: Seq<IndexType>, e: int) -> bool {
    exists|j: int| 0 <= j < edges.len() && #[trigger] edges[j] as int == e
}

/// The count after one more recomputation.
pub open spec fn bumped(count: u32) -> u32 {
    if count == u32::MAX {
        count
    } else {
        (count + 1) as u32
    }
}

impl<P> View for SimplifyState<P> {
    type V = SimplifyModel<P>;

    closed spec fn view(&self) -> SimplifyModel<P> {
        SimplifyModel {
            queue: self.queue@,
            edge_info: self.edge_info@,
            target: self.final_num_faces as nat,
            modified: self.modified_edges@,
        }
    }
}

impl<P> SimplifyModel<P> {
    /// The table has a place for every edge and knows only live edges; the
    /// queue names only edges that have a place.
    pub open spec fn fits(self, mesh: MeshModel<P>) -> bool {
        &&& self.edge_info.len() == mesh.edges.len()
        &&& forall|e: int| 0 <= e < self.edge_info.len() && (#[trigger] self.edge_info[e]) is Some ==> mesh.live_edge(e)
        &&& forall|y: EdgeCost| #[trigger] self.queue.count(y) > 0 ==> (y.edge_idx as int) < self.edge_info.len()
    }

    /// The edges that the last collapse left at the merged vertex are live.
    pub open spec fn modified_live(self, mesh: MeshModel<P>) -> bool {
        forall|i: int| 0 <= i < self.modified.len() ==> mesh.live_edge((#[trigger] self.modified[i]).0 as int)
    }

    /// The entry `y` leads to a collapse: its edge is still known, no newer
    /// cost has been computed for it, and the surface allows the collapse.
    pub open spec fn usable(self, mesh: MeshModel<P>, y: EdgeCost) -> bool {
        &&& (y.edge_idx as int) < self.edge_info.len()
        &&& self.edge_info[y.edge_idx as int] matches Some(info) && y.count >= info.count
        &&& mesh.collapse_legal(y.edge_idx as int)
    }

    /// `later` is this queue after `top` and everything that outranks it has
    /// been taken out.
    pub open spec fn taken_until(self, later: Multiset<EdgeCost>, top: EdgeCost) -> bool {
        forall|y: EdgeCost|
            #[trigger] later.count(y) == if y.outranks(top) {
                0
            } else if y == top {
                (self.queue.count(y) - 1) as nat
            } else {
                self.queue.count(y)
            }
    }

    /// The table after the edges `removed` are forgotten.
    pub open spec fn forgetting(self, removed: Seq<IndexType>) -> Seq<Option<EdgeInfo<P>>> {
        Seq::new(
            self.edge_info.len(),
            |e: int|
                if lists(removed, e) {
                    None
                } else {
                    self.edge_info[e]
                },
        )
    }

    /// The scheduler after the first `n` of the modified edges got new
    /// results: each is recorded as an edge from `new_vertex` to its other
    /// end, with its count raised, and queued again.
    pub open spec fn updated(self, new_vertex: IndexType, results: Seq<EdgeResult<P>>, n: nat) -> Self
        decreases n,
    {
        if n == 0 {
            self
        } else {
            let s = self.updated(new_vertex, results, (n - 1) as nat);
            let (edge, other) = self.modified[n - 1];
            let result = results[n - 1];
            let count = match s.edge_info[edge as int] {
                Some(info) => bumped(info.count),
                None => 1u32,
            };
            SimplifyModel {
                queue: s.queue.insert(EdgeCost { cost: result.cost, edge_idx: edge, count }),
                edge_info: s.edge_info.update(
                    edge as int,
                    Some(EdgeInfo { best_position: result.best_position, first: new_vertex, second: other, count }),
                ),
                ..s
            }
        }
    }

    /// The scheduler at the start, after the first `n` live edges of `mesh`
    /// got their results.
    pub open spec fn initial(mesh: MeshModel<P>, faces_to_remove: u32, results: Seq<EdgeResult<P>>, n: nat) -> Self
        decreases n,
    {
        if n == 0 {
            SimplifyModel {
                queue: Multiset::empty(),
                edge_info: Seq::new(mesh.edges.len(), |e: int| None),
                target: if mesh.num_faces() >= faces_to_remove {
                    (mesh.num_faces() - faces_to_remove) as nat
                } else {
                    0
                },
                modified: Seq::empty(),
            }
        } else {
            let s = Self::initial(mesh, faces_to_remove, results, (n - 1) as nat);
            let e = live_indices(mesh.edges)[n - 1];
            let result = results[n - 1];
            let ends = mesh.endpoints(e);
            SimplifyModel {
                queue: s.queue.insert(EdgeCost { cost: result.cost, edge_idx: e as IndexType, count: 0 }),
                edge_info: s.edge_info.update(
                    e,
                    Some(
                        EdgeInfo {
                            best_position: result.best_position,
                            first: ends.0 as IndexType,
                            second: ends.1 as IndexType,
                            count: 0,
                        },
                    ),
                ),
                ..s
            }
        }
    }
}

impl<P: Copy> SimplifyState<P> {
    /// The scheduler is consistent with the surface.
    pub closed spec fn inv(&self, mesh: MeshModel<P>) -> bool {
        self.queue.wf() && self@.fits(mesh)
    }

    /// The edges that the last collapse left at the merged vertex, each with
    /// its other end.
    pub fn modified_edges(&self) -> (r: &Vec<(IndexType, IndexType)>)
        ensures
            r@ == self@.modified,
    {
        &self.modified_edges
    }

    /// The number of faces at which the simplification stops.
    pub fn final_num_faces(&self) -> (r: usize)
        ensures
            r == self@.target,
    {
        self.final_num_faces
    }

    /// What is known of an edge, if anything.
    pub fn edge_info(&self, edge_idx: IndexType) -> (r: Option<&EdgeInfo<P>>)
        ensures
            match r {
                Some(info) => (edge_idx as int) < self@.edge_info.len() && self@.edge_info[edge_idx as int] == Some(*info),
                None => (edge_idx as int) >= self@.edge_info.len() || self@.edge_info[edge_idx as int] is None,
            },
    {
        if (edge_idx as usize) < self.edge_info.len() {
            self.edge_info[edge_idx as usize].as_ref()
        } else {
            None
        }
    }
}

impl Simplify {
    /// Settings for simplification.
    pub fn new(faces_to_remove: u32) -> (r: Self)
        ensures
            r.faces_to_remove() == faces_to_remove,
    {
        Simplify { faces_to_remove }
    }

    /// The number of faces to remove.
    pub closed spec fn faces_to_remove(&self) -> u32 {
        self.faces_to_remove
    }

    /// The number of faces to remove.
    pub fn get_faces_to_remove(&self) -> (r: u32)
        ensures
            r == self.faces_to_remove(),
    {
        self.faces_to_remove
    }

    /// Sets the scheduler up: every live edge, in ascending order, is
    /// recorded with its ends and its result, and queued.  `results` holds
    /// one result for each live edge, in that order; otherwise there is no
    /// scheduler.
    pub fn begin<P: Copy>(&self, mesh: &HalfEdge<P>, results: &Vec<EdgeResult<P>>) -> (r: Option<SimplifyState<P>>)
        requires
            mesh.wf(),
        ensures
            r is Some <==> results@.len() == mesh@.num_edges(),
            r matches Some(state) ==> state.inv(mesh@) && state@ == SimplifyModel::initial(
                mesh@,
                self.faces_to_remove(),
                results@,
                results@.len(),
            ),
            r matches Some(state) ==> state@.target == if mesh@.num_faces() >= self.faces_to_remove() {
                mesh@.num_faces() - self.faces_to_remove()
            } else {
                0
            },
            r matches Some(state) ==> state@.modified.len() == 0,
    {
        let n: usize = mesh.max_idx_edges();
        proof {
            lemma_count_live_bound(mesh@.edges);
            lemma_live_indices(mesh@.edges);
        }
        if results.len() != mesh.num_edges() {
            return None;
        }
        let faces: usize = mesh.num_faces();
        let mut state: SimplifyState<P> = SimplifyState {
            queue: EdgeQueue::new(),
            edge_info: Vec::new(),
            final_num_faces: if faces >= self.faces_to_remove as usize {
                faces - self.faces_to_remove as usize
            } else {
                0
            },
            modified_edges: Vec::new(),
            removed_edges: Vec::new(),
        };
        let mut i: usize = 0;
        while i < n
            invariant
                i <= n,
                state.edge_info@.len() == i,
                forall|e: int| 0 <= e < i ==> (#[trigger] state.edge_info@[e]) is None,
                state.queue.wf(),
                state.queue@ == Multiset::<EdgeCost>::empty(),
                state.modified_edges@.len() == 0,
                state.final_num_faces == SimplifyModel::<P>::initial(mesh@, self.faces_to_remove(), results@, 0).target,
            decreases n - i,
        {
            state.edge_info.push(None);
            i = i + 1;
        }
        let ghost edges = mesh@.edges;
        let ghost live = live_indices(edges);
        let mut done: usize = 0;
        let mut e: usize = 0;
        proof {
            assert(edges.take(0) =~= Seq::empty());
            assert(state@.edge_info =~= SimplifyModel::<P>::initial(mesh@, self.faces_to_remove(), results@, 0).edge_info);
            assert(state@.modified =~= Seq::empty());
        }
        while e < n
            invariant
                mesh.wf(),
                edges == mesh@.edges,
                live == live_indices(edges),
                n == edges.len(),
                e <= n,
                done == live_indices(edges.take(e as int)).len(),
                done <= live.len(),
                live.len() == results@.len(),
                live.len() <= n,
                forall|j: int| 0 <= j < done ==> live_indices(edges.take(e as int))[j] == #[trigger] live[j],
                state.queue.wf(),
                state@ == SimplifyModel::initial(mesh@, self.faces_to_remove(), results@, done as nat),
                state@.target == SimplifyModel::<P>::initial(mesh@, self.faces_to_remove(), results@, 0).target,
                state@.modified.len() == 0,
                state@.edge_info.len() == n,
                forall|d: int| 0 <= d < n && (#[trigger] state@.edge_info[d]) is Some ==> mesh@.live_edge(d),
                forall|y: EdgeCost| #[trigger] state.queue@.count(y) > 0 ==> (y.edge_idx as int) < n,
            decreases n - e,
        {
            proof {
                assert(edges.take(e + 1).drop_last() =~= edges.take(e as int));
                lemma_live_prefix(edges, e as int + 1);
                lemma_live_prefix(edges, e as int);
            }
            if mesh.is_live_edge(e as IndexType) {
                let ends: [IndexType; 2] = mesh.get_endpoints(e as IndexType);
                let result: &EdgeResult<P> = &results[done];
                proof {
                    let upto = live_indices(edges.take(e + 1));
                    assert(upto[done as int] == e);
                    assert(upto.len() == done + 1);
                    assert(live[done as int] == e);
                    assert(done + 1 <= live.len());
                }
                let ghost q0 = state.queue@;
                let entry: EdgeCost = EdgeCost { cost: result.cost, edge_idx: e as IndexType, count: 0 };
                state.queue.push(entry);
                proof {
                    assert forall|y: EdgeCost| #[trigger] state.queue@.count(y) > 0 implies (y.edge_idx as int) < n by {
                        if y != entry {
                            assert(state.queue@ == q0.insert(entry));
                            assert(q0.insert(entry).count(y) == q0.count(y));
                            assert(q0.count(y) > 0);
                            assert((y.edge_idx as int) < n);
                        } else {
                            assert(y.edge_idx == e);
                        }
                    }
                }
                state.edge_info[e] = Some(
                    EdgeInfo { best_position: result.best_position, first: ends[0], second: ends[1], count: 0 },
                );
                done = done + 1;
            }
            e = e + 1;
        }
        proof {
            assert(edges.take(n as int) =~= edges);
        }
        Some(state)
    }

    /// Runs the scheduler up to the next collapse.
    ///
    /// While the surface has more faces than asked for, entries leave the
    /// queue in their order.  An entry is passed over when its edge is no
    /// longer known, when a newer cost has been computed for its edge, or
    /// when the surface refuses the collapse.  The first other entry has its
    /// edge collapsed: the vertex that stays is moved to the recorded
    /// position, and the edges that went are forgotten.
    pub fn step<P: Copy>(mesh: &mut HalfEdge<P>, state: &mut SimplifyState<P>) -> (r: SimplifyStep)
        requires
            old(mesh).wf(),
            old(state).inv(old(mesh)@),
        ensures
            final(mesh).wf(),
            final(state).inv(final(mesh)@),
            final(state)@.modified_live(final(mesh)@),
            final(state)@.target == old(state)@.target,
            match r {
                SimplifyStep::Done => {
                    &&& old(mesh)@.num_faces() <= old(state)@.target
                    &&& *final(mesh) == *old(mesh)
                    &&& final(state)@.queue == old(state)@.queue
                    &&& final(state)@.edge_info == old(state)@.edge_info
                },
                SimplifyStep::QueueEmpty => {
                    &&& old(mesh)@.num_faces() > old(state)@.target
                    &&& *final(mesh) == *old(mesh)
                    &&& final(state)@.queue.len() == 0
                    &&& final(state)@.edge_info == old(state)@.edge_info
                    &&& forall|y: EdgeCost| old(state)@.queue.count(y) > 0 ==> !old(state)@.usable(old(mesh)@, y)
                },
                SimplifyStep::Collapsed { entry, new_vertex, first, second } => {
                    let e = entry.edge_idx as int;
                    &&& old(mesh)@.num_faces() > old(state)@.target
                    &&& old(state)@.queue.count(entry) > 0
                    &&& old(state)@.usable(old(mesh)@, entry)
                    &&& old(state)@.taken_until(final(state)@.queue, entry)
                    &&& old(state)@.edge_info[e] matches Some(info) && first == info.first && second == info.second
                        && final(mesh)@ == old(mesh)@.collapse(e).with_position(new_vertex as int, info.best_position)
                    &&& new_vertex == old(mesh)@.diamond(e).q
                    &&& final(state)@.edge_info == old(state)@.forgetting(old(mesh)@.collapse_removed(e))
                    &&& final(state)@.modified == old(mesh)@.collapse_modified(e)
                },
            },
    {
        let ghost m0 = mesh@;
        let ghost s0 = state@;
        let ghost q0 = state.queue@;
        proof {
            assert(state@.queue == state.queue@);
        }
        if mesh.num_faces() <= state.final_num_faces {
            state.modified_edges.clear();
            proof {
                assert(state@.queue == s0.queue && state@.edge_info == s0.edge_info);
            }
            return SimplifyStep::Done;
        }
        loop
            invariant
                mesh.wf(),
                *mesh == *old(mesh),
                m0 == mesh@,
                s0 == old(state)@,
                q0 == s0.queue,
                state.queue.wf(),
                s0.fits(m0),
                state.edge_info@ == s0.edge_info,
                state.final_num_faces == s0.target,
                m0.num_faces() > s0.target,
                forall|y: EdgeCost| #[trigger] state.queue@.count(y) <= q0.count(y),
                forall|y: EdgeCost| #[trigger]
                    state.queue@.count(y) < q0.count(y) ==> !s0.usable(m0, y) && forall|z: EdgeCost| #[trigger]
                        state.queue@.count(z) > 0 ==> !z.outranks(y),
            decreases state.queue@.len(),
        {
            let ghost q1 = state.queue@;
            let entry: EdgeCost = match state.queue.pop() {
                Some(entry) => entry,
                None => {
                    state.modified_edges.clear();
                    proof {
                        assert forall|y: EdgeCost| q0.count(y) > 0 implies !s0.usable(m0, y) by {
                            assert(state.queue@.count(y) == 0);
                        }
                        assert(state@.queue == state.queue@ && state@.edge_info == s0.edge_info);
                        assert forall|y: EdgeCost| #[trigger] state@.queue.count(y) > 0 implies (y.edge_idx as int)
                            < state@.edge_info.len() by {}
                    }
                    return SimplifyStep::QueueEmpty;
                },
            };
            let ghost q2 = state.queue@;
            proof {
                assert(q1.count(entry) <= q0.count(entry));
                assert forall|y: EdgeCost| #[trigger] q2.count(y) <= q0.count(y) by {
                    assert(q1.count(y) <= q0.count(y));
                }
                assert forall|y: EdgeCost| #[trigger] q2.count(y) < q0.count(y) && y != entry implies !s0.usable(m0, y)
                    && forall|z: EdgeCost| #[trigger] q2.count(z) > 0 ==> !z.outranks(y) by {
                    assert(q1.count(y) < q0.count(y));
                    assert forall|z: EdgeCost| #[trigger] q2.count(z) > 0 implies !z.outranks(y) by {
                        assert(q1.count(z) > 0);
                    }
                }
                assert forall|z: EdgeCost| #[trigger] q2.count(z) > 0 implies !z.outranks(entry) by {
                    assert(q1.count(z) > 0);
                }
            }
            let e: IndexType = entry.edge_idx;
            let found: Option<(P, IndexType, IndexType, u32)> = match &state.edge_info[e as usize] {
                Some(info) => Some((info.best_position, info.first, info.second, info.count)),
                None => None,
            };
            let (best_position, first, second, true_count) = match found {
                Some(found) => found,
                None => {
                    continue ;
                },
            };
            if entry.count < true_count {
                continue ;
            }
            match mesh.collapse_edge(e, &mut state.modified_edges, &mut state.removed_edges) {
                None => {
                    continue ;
                },
                Some(new_vertex) => {
                    let ghost m1 = mesh@;
                    proof {
                        m0.lemma_collapse(e as int);
                        m0.lemma_collapse_reports(e as int);
                        m0.lemma_diamond(e as int);
                    }
                    mesh.set_position(new_vertex, &best_position);
                    let ghost removed = state.removed_edges@;
                    let mut i: usize = 0;
                    while i < state.removed_edges.len()
                        invariant
                            i <= removed.len(),
                            removed == state.removed_edges@,
                            state.edge_info@.len() == s0.edge_info.len(),
                            s0.edge_info.len() == m0.edges.len(),
                            forall|j: int| 0 <= j < removed.len() ==> m0.live_edge(#[trigger] removed[j] as int),
                            forall|d: int|
                                0 <= d < s0.edge_info.len() ==> #[trigger] state.edge_info@[d] == if lists(
                                    removed.take(i as int),
                                    d,
                                ) {
                                    None
                                } else {
                                    s0.edge_info[d]
                                },
                            state.queue@ == q2,
                            state.queue.wf(),
                            state.final_num_faces == s0.target,
                            state.modified_edges@ == m0.collapse_modified(e as int),
                        decreases state.removed_edges.len() - i,
                    {
                        let d: IndexType = state.removed_edges[i];
                        proof {
                            assert(m0.live_edge(removed[i as int] as int));
                            assert forall|x: int| lists(removed.take(i + 1), x) <==> (lists(removed.take(i as int), x)
                                || x == d) by {
                                if lists(removed.take(i as int), x) {
                                    let j = choose|j: int|
                                        0 <= j < removed.take(i as int).len() && #[trigger] removed.take(i as int)[j] as int
                                            == x;
                                    assert(removed.take(i + 1)[j] as int == x);
                                }
                                if x == d {
                                    assert(removed.take(i + 1)[i as int] as int == x);
                                }
                                if lists(removed.take(i + 1), x) {
                                    let j = choose|j: int|
                                        0 <= j < removed.take(i + 1).len() && #[trigger] removed.take(i + 1)[j] as int == x;
                                    if j < i {
                                        assert(removed.take(i as int)[j] as int == x);
                                    }
                                }
                            }
                        }
                        state.edge_info[d as usize] = None;
                        i = i + 1;
                    }
                    proof {
                        assert(removed.take(removed.len() as int) =~= removed);
                        assert(state.edge_info@ =~= s0.forgetting(removed));
                        assert forall|d: int| 0 <= d < state.edge_info@.len() && (#[trigger] state.edge_info@[d]) is Some implies mesh@.live_edge(
                            d,
                        ) by {
                            assert(s0.edge_info[d] is Some);
                            assert(m0.live_edge(d));
                            assert(!lists(removed, d));
                            if !m1.live_edge(d) {
                                // the three edges that went are all reported
                                m0.lemma_removed_complete(e as int, d);
                                let j = choose|j: int| 0 <= j < removed.len() && removed[j] == d as IndexType;
                                assert(removed[j] as int == d);
                            }
                        }
                        assert forall|y: EdgeCost| #[trigger] state.queue@.count(y) > 0 implies (y.edge_idx as int)
                            < state.edge_info@.len() by {
                            assert(q0.count(y) > 0);
                        }
                        assert forall|y: EdgeCost|
                            #[trigger] q2.count(y) == if y.outranks(entry) {
                                0
                            } else if y == entry {
                                (q0.count(y) - 1) as nat
                            } else {
                                q0.count(y)
                            } by {
                            if y.outranks(entry) {
                                if q2.count(y) > 0 {
                                    assert(q1.count(y) > 0);
                                }
                            } else if y == entry {
                                if q1.count(y) < q0.count(y) {
                                    assert(!s0.usable(m0, y));
                                }
                            } else {
                                if q1.count(y) < q0.count(y) {
                                    assert(q1.count(entry) > 0);
                                    assert(!entry.outranks(y));
                                }
                            }
                        }
                    }
                    return SimplifyStep::Collapsed { entry, new_vertex, first, second };
                },
            }
        }
    }

    /// Records the results that were computed for the edges at the merged
    /// vertex after a collapse: each edge is noted as running from
    /// `new_vertex` to its other end, its count is raised, and it is queued
    /// with its new cost.  `results` holds one result for each of the
    /// modified edges, in their order; otherwise nothing is done and the
    /// result is `false`.
    pub fn update<P: Copy>(
        mesh: &HalfEdge<P>,
        state: &mut SimplifyState<P>,
        new_vertex: IndexType,
        results: &Vec<EdgeResult<P>>,
    ) -> (r: bool)
        requires
            old(state).inv(mesh@),
            old(state)@.modified_live(mesh@),
        ensures
            final(state).inv(mesh@),
            final(state)@.modified_live(mesh@),
            r == (results@.len() == old(state)@.modified.len()),
            r ==> final(state)@ == old(state)@.updated(new_vertex, results@, results@.len()),
            !r ==> final(state)@ == old(state)@,
    {
        let n: usize = state.modified_edges.len();
        if results.len() != n {
            return false;
        }
        let ghost s0 = state@;
        let mut i: usize = 0;
        proof {
            assert(state@.queue == state.queue@);
            assert forall|y: EdgeCost| #[trigger] state.queue@.count(y) > 0 implies (y.edge_idx as int)
                < state.edge_info@.len() by {
                assert(s0.queue.count(y) > 0);
            }
        }
        while i < n
            invariant
                i <= n,
                n == results@.len(),
                n == s0.modified.len(),
                s0 == old(state)@,
                s0.modified_live(mesh@),
                state.modified_edges@ == s0.modified,
                state.queue.wf(),
                state@ == s0.updated(new_vertex, results@, i as nat),
                state.edge_info@.len() == mesh@.edges.len(),
                forall|e: int| 0 <= e < state.edge_info@.len() && (#[trigger] state.edge_info@[e]) is Some ==> mesh@.live_edge(e),
                forall|y: EdgeCost| #[trigger] state.queue@.count(y) > 0 ==> (y.edge_idx as int) < state.edge_info@.len(),
            decreases n - i,
        {
            let (edge, other) = state.modified_edges[i];
            let result: &EdgeResult<P> = &results[i];
            proof {
                assert(mesh@.live_edge(s0.modified[i as int].0 as int));
            }
            let count: u32 = match &state.edge_info[edge as usize] {
                Some(info) => if info.count == u32::MAX {
                    u32::MAX
                } else {
                    info.count + 1
                },
                None => 1,
            };
            let ghost q0 = state.queue@;
            let entry: EdgeCost = EdgeCost { cost: result.cost, edge_idx: edge, count };
            state.queue.push(entry);
            state.edge_info[edge as usize] = Some(
                EdgeInfo { best_position: result.best_position, first: new_vertex, second: other, count },
            );
            proof {
                assert forall|y: EdgeCost| #[trigger] state.queue@.count(y) > 0 implies (y.edge_idx as int)
                    < state.edge_info@.len() by {
                    if y != entry {
                        assert(q0.insert(entry).count(y) == q0.count(y));
                        assert(q0.count(y) > 0);
                    }
                }
            }
            i = i + 1;
        }
        proof {
            assert(state@.queue == state.queue@);
            assert forall|y: EdgeCost| #[trigger] state@.queue.count(y) > 0 implies (y.edge_idx as int)
                < state@.edge_info.len() by {}
        }
        true
    }
}

} // verus!
