//! Bilateral denoising: which vertices the new position of a vertex
//! depends on.
use vstd::prelude::*;
use crate::data_structure::half_edge::as_ints;
use crate::data_structure::half_edge::HalfEdge;
use crate::data_structure::model::IndexType;
use crate::data_structure::model::MeshModel;

verus! {
/// Bilateral denoising: every vertex is moved along its normal by a
/// weighted mean over the vertices within a number of rings around it.
pub struct Denoise {
    iterations: u32,
    kernel_size: u32,
}

/// `found` with those of `near` put behind it that it does not hold yet, in
/// their order.
pub open spec fn with_new(found: Seq<int>, near: Seq<int>) -> Seq<int>
    decreases near.len(),
{
    if near.len() == 0 {
        found
    } else {
        let before = with_new(found, near.drop_last());
        if before.contains(near.last()) {
            before
        } else {
            before.push(near.last())
        }
    }
}

impl<P> MeshModel<P> {
    /// `found` after the neighbours of its members from place `from` up to
    /// place `to` have been put behind it, as far as they are new.
    pub open spec fn scanned(self, found: Seq<int>, from: int, to: int) -> Seq<int>
        decreases to - from,
    {
        if to <= from {
            found
        } else {
            with_new(self.scanned(found, from, to - 1), self.one_ring(found[to - 1]))
        }
    }

    /// The vertices within `k` edges of `v` in the order in which a search
    /// ring by ring finds them, and the place at which the last ring starts.
    pub open spec fn rings_around(self, v: int, k: nat) -> (Seq<int>, int)
        decreases k,
    {
        if k == 0 {
            (seq![v], 0)
        } else {
            let (found, first) = self.rings_around(v, (k - 1) as nat);
            (self.scanned(found, first, found.len() as int), found.len() as int)
        }
    }

    /// `u` can be reached from `v` over at most `k` edges.
    pub open spec fn within(self, v: int, u: int, k: nat) -> bool
        decreases k,
    {
        if k == 0 {
            u == v
        } else {
            self.within(v, u, (k - 1) as nat) || exists|w: int|
                self.within(v, w, (k - 1) as nat) && #[trigger] self.adjacent(w, u)
        }
    }

    /// What is within reach stays within reach when more edges are allowed.
    pub proof fn lemma_within_more(self, v: int, u: int, j: nat, k: nat)
        requires
            self.within(v, u, j),
            j <= k,
        ensures
            self.within(v, u, k),
        decreases k,
    {
        if j < k {
            self.lemma_within_more(v, u, j, (k - 1) as nat);
            assert(self.within(v, u, k));
        }
    }

    /// One more edge leads from what is within reach to what is within reach
    /// of one more edge.
    pub proof fn lemma_within_step(self, v: int, w: int, u: int, k: nat)
        requires
            self.within(v, w, k),
            self.adjacent(w, u),
        ensures
            self.within(v, u, k + 1),
    {
        assert(((k + 1) - 1) as nat == k);
    }

    /// What is within reach of one more edge is within reach, or one edge
    /// away from something that is.
    pub proof fn lemma_within_last(self, v: int, u: int, k: nat) -> (w: int)
        requires
            self.within(v, u, k + 1),
            !self.within(v, u, k),
        ensures
            self.within(v, w, k),
            self.adjacent(w, u),
    {
        assert(((k + 1) - 1) as nat == k);
        choose|w: int| self.within(v, w, ((k + 1) - 1) as nat) && #[trigger] self.adjacent(w, u)
    }

    /// Only live vertices are within reach of a live vertex.
    pub proof fn lemma_within_live(self, v: int, u: int, k: nat)
        requires
            self.links_ok(),
            self.live_vertex(v),
            self.within(v, u, k),
        ensures
            self.live_vertex(u),
        decreases k,
    {
        if k > 0 {
            if self.within(v, u, (k - 1) as nat) {
                self.lemma_within_live(v, u, (k - 1) as nat);
            } else {
                let w = self.lemma_within_last(v, u, (k - 1) as nat);
                let h = choose|h: int| self.live(h) && #[trigger] self.arc(h) == (w, u);
                self.lemma_around(h);
                self.lemma_around(self.next(h));
            }
        }
    }
}

impl Denoise {
    /// Settings for denoising.
    pub fn new(iterations: u32, kernel_size: u32) -> (r: Self)
        ensures
            r.iterations() == iterations,
            r.kernel_size() == kernel_size,
    {
        Denoise { iterations, kernel_size }
    }

    /// The number of rounds to carry out.
    pub closed spec fn iterations(&self) -> u32 {
        self.iterations
    }

    /// The number of rings around a vertex that its new position depends
    /// on.
    pub closed spec fn kernel_size(&self) -> u32 {
        self.kernel_size
    }

    /// The number of rounds to carry out.
    pub fn get_iterations(&self) -> (r: u32)
        ensures
            r == self.iterations(),
    {
        self.iterations
    }

    /// The number of rings around a vertex that its new position depends
    /// on.
    pub fn get_kernel_size(&self) -> (r: u32)
        ensures
            r == self.kernel_size(),
    {
        self.kernel_size
    }

    /// The vertices that can be reached from a live vertex over at most
    /// `kernel_size` edges, each once: the vertex itself first, then ring by
    /// ring.  Within a ring the vertices come as they are met around the
    /// vertices of the ring before, taken in their order.
    pub fn neighborhood<P: Copy>(mesh: &HalfEdge<P>, vertex_idx: IndexType, kernel_size: u32) -> (r: Vec<IndexType>)
        requires
            mesh.wf(),
            mesh@.live_vertex(vertex_idx as int),
        ensures
            r@.len() >= 1,
            r@[0] == vertex_idx,
            r@.no_duplicates(),
            forall|u: int| as_ints(r@).contains(u) <==> mesh@.within(vertex_idx as int, u, kernel_size as nat),
            as_ints(r@) == mesh@.rings_around(vertex_idx as int, kernel_size as nat).0,
    {
        let nv: usize = mesh.max_idx_vertices();
        let ghost v: int = vertex_idx as int;
        let mut seen: Vec<bool> = Vec::new();
        let mut i: usize = 0;
        while i < nv
            invariant
                i <= nv,
                seen@.len() == i,
                forall|u: int| 0 <= u < i ==> !seen@[u],
            decreases nv - i,
        {
            seen.push(false);
            i = i + 1;
        }
        let mut found: Vec<IndexType> = Vec::new();
        found.push(vertex_idx);
        seen[vertex_idx as usize] = true;
        let mut store: Vec<IndexType> = Vec::new();
        // the last ring is `found[first..]`
        let mut first: usize = 0;
        let mut ring: u32 = 0;
        proof {
            assert(as_ints(found@)[0] == v);
            assert(as_ints(found@) =~= seq![v]);
        }
        while ring < kernel_size
            invariant
                (as_ints(found@), first as int) == mesh@.rings_around(v, ring as nat),
                mesh.wf(),
                nv == mesh@.vertices.len(),
                mesh@.live_vertex(v),
                v == vertex_idx,
                seen@.len() == nv,
                ring <= kernel_size,
                first <= found@.len(),
                ring == 0 ==> first == 0,
                found@.len() >= 1,
                found@[0] == vertex_idx,
                found@.no_duplicates(),
                forall|j: int| 0 <= j < found@.len() ==> (#[trigger] found@[j] as int) < nv && seen@[found@[j] as int],
                forall|u: int| 0 <= u < nv && #[trigger] seen@[u] ==> as_ints(found@).contains(u),
                forall|u: int| #[trigger] as_ints(found@).contains(u) <==> mesh@.within(v, u, ring as nat),
                forall|j: int|
                    0 <= j < first && ring > 0 ==> mesh@.within(v, #[trigger] found@[j] as int, (ring - 1) as nat),
            decreases kernel_size - ring,
        {
            let end: usize = found.len();
            let ghost found0 = found@;
            let mut j: usize = first;
            proof {
                assert forall|a: int| 0 <= a < found@.len() implies mesh@.within(v, #[trigger] found@[a] as int, (ring + 1) as nat) by {
                    assert(as_ints(found@)[a] == found@[a] as int);
                    assert(as_ints(found@).contains(found@[a] as int));
                    mesh@.lemma_within_more(v, found@[a] as int, ring as nat, (ring + 1) as nat);
                }
            }
            while j < end
                invariant
                    as_ints(found@) == mesh@.scanned(as_ints(found0), first as int, j as int),
                    mesh.wf(),
                    nv == mesh@.vertices.len(),
                    mesh@.live_vertex(v),
                    v == vertex_idx,
                    seen@.len() == nv,
                    ring < kernel_size,
                    ring == 0 ==> first == 0,
                    first <= j <= end,
                    end == found0.len(),
                    end <= found@.len(),
                    found@.len() >= 1,
                    found@[0] == vertex_idx,
                    found@.no_duplicates(),
                    forall|a: int| 0 <= a < end ==> #[trigger] found@[a] == found0[a],
                    forall|a: int| 0 <= a < found@.len() ==> (#[trigger] found@[a] as int) < nv && seen@[found@[a] as int],
                    forall|u: int| 0 <= u < nv && #[trigger] seen@[u] ==> as_ints(found@).contains(u),
                    forall|u: int| #[trigger] as_ints(found0).contains(u) <==> mesh@.within(v, u, ring as nat),
                    forall|a: int|
                        0 <= a < first && ring > 0 ==> mesh@.within(v, #[trigger] found0[a] as int, (ring - 1) as nat),
                    // what has been added is one edge away from the last ring
                    forall|a: int| 0 <= a < found@.len() ==> mesh@.within(v, #[trigger] found@[a] as int, (ring + 1) as nat),
                    // the neighbours of the part of the last ring that is done are in
                    forall|a: int, u: int|
                        first <= a < j && #[trigger] mesh@.adjacent(found0[a] as int, u) ==> as_ints(found@).contains(u),
                decreases end - j,
            {
                let w: IndexType = found[j];
                proof {
                    assert(as_ints(found0)[j as int] == w as int);
                    assert(as_ints(found0).contains(w as int));
                    mesh@.lemma_within_live(v, w as int, ring as nat);
                    mesh@.lemma_vertex_ring(w as int);
                }
                mesh.get_vertex_neighbors(w, &mut store);
                let ghost near = mesh@.one_ring(w as int);
                let ghost hs = mesh@.vertex_ring(w as int);
                let mut c: usize = 0;
                proof {
                    assert(as_ints(store@).len() == store@.len());
                    assert(near.len() == hs.len());
                }
                let ghost found_j = as_ints(found@);
                proof {
                    assert(near.take(0) =~= Seq::empty());
                }
                while c < store.len()
                    invariant
                        as_ints(found@) == with_new(found_j, near.take(c as int)),
                        found_j == mesh@.scanned(as_ints(found0), first as int, j as int),
                        mesh.wf(),
                        nv == mesh@.vertices.len(),
                        mesh@.live_vertex(v),
                        mesh@.live_vertex(w as int),
                        mesh@.within(v, w as int, ring as nat),
                        seen@.len() == nv,
                        c <= store@.len(),
                        as_ints(store@) == near,
                        near == mesh@.one_ring(w as int),
                        hs == mesh@.vertex_ring(w as int),
                        store@.len() == hs.len(),
                        forall|a: int| 0 <= a < hs.len() ==> #[trigger] mesh@.ring_place_ok(w as int, a),
                        end <= found@.len(),
                        found@.len() >= 1,
                        found@[0] == vertex_idx,
                        found@.no_duplicates(),
                        forall|a: int| 0 <= a < end ==> #[trigger] found@[a] == found0[a],
                        forall|a: int|
                            0 <= a < found@.len() ==> (#[trigger] found@[a] as int) < nv && seen@[found@[a] as int],
                        forall|u: int| 0 <= u < nv && #[trigger] seen@[u] ==> as_ints(found@).contains(u),
                        forall|a: int|
                            0 <= a < found@.len() ==> mesh@.within(v, #[trigger] found@[a] as int, (ring + 1) as nat),
                        first <= j < end,
                        end == found0.len(),
                        forall|a: int, u: int|
                            first <= a < j && #[trigger] mesh@.adjacent(found0[a] as int, u) ==> as_ints(found@).contains(
                                u,
                            ),
                        forall|a: int| 0 <= a < c ==> as_ints(found@).contains(#[trigger] store@[a] as int),
                    decreases store.len() - c,
                {
                    let u: IndexType = store[c];
                    proof {
                        assert(as_ints(store@)[c as int] == u as int);
                        assert(near[c as int] == mesh@.dest(hs[c as int]));
                        assert(mesh@.ring_place_ok(w as int, c as int));
                        mesh@.lemma_around(hs[c as int]);
                        mesh@.lemma_around(mesh@.next(hs[c as int]));
                        mesh@.lemma_adjacent(hs[c as int]);
                        assert(mesh@.adjacent(w as int, u as int));
                        mesh@.lemma_within_step(v, w as int, u as int, ring as nat);
                        assert(mesh@.within(v, u as int, (ring + 1) as nat));
                    }
                    let ghost found1 = found@;
                    proof {
                        assert(near.take(c + 1).drop_last() =~= near.take(c as int));
                        assert(near.take(c + 1).last() == u as int);
                        if as_ints(found1).contains(u as int) {
                            let a = choose|a: int| 0 <= a < as_ints(found1).len() && as_ints(found1)[a] == u as int;
                            assert(found1[a] == u);
                            assert(seen@[u as int]);
                        }
                    }
                    if !seen[u as usize] {
                        seen[u as usize] = true;
                        found.push(u);
                        proof {
                            assert forall|x: int| as_ints(found1).contains(x) implies as_ints(found@).contains(x) by {
                                let a = choose|a: int| 0 <= a < as_ints(found1).len() && as_ints(found1)[a] == x;
                                assert(as_ints(found@)[a] == x);
                            }
                            assert(as_ints(found@)[found1.len() as int] == u as int);
                            assert(as_ints(found@) =~= as_ints(found1).push(u as int));
                            assert forall|a: int, b: int|
                                0 <= a < found@.len() && 0 <= b < found@.len() && a != b implies found@[a] != found@[b] by {
                                if a == found1.len() {
                                    assert(seen@[found1[b] as int]);
                                    assert(found1[b] == found@[b]);
                                } else if b == found1.len() {
                                    assert(found1[a] == found@[a]);
                                }
                            }
                        }
                    } else {
                        proof {
                            assert(as_ints(found@).contains(u as int));
                        }
                    }
                    proof {
                        assert forall|a: int| 0 <= a < c + 1 implies as_ints(found@).contains(#[trigger] store@[a] as int) by {
                            if a < c {
                                assert(as_ints(found1).contains(store@[a] as int));
                                if found@.len() > found1.len() {
                                    let b = choose|b: int| 0 <= b < as_ints(found1).len() && as_ints(found1)[b] == store@[a] as int;
                                    assert(as_ints(found@)[b] == store@[a] as int);
                                }
                            }
                        }
                    }
                    c = c + 1;
                }
                proof {
                    assert(near.take(near.len() as int) =~= near);
                    assert(as_ints(found0)[j as int] == w as int);
                    assert forall|u: int| mesh@.adjacent(found0[j as int] as int, u) implies as_ints(found@).contains(u) by {
                        let h = choose|h: int| mesh@.live(h) && #[trigger] mesh@.arc(h) == (w as int, u);
                        assert(hs.contains(h));
                        let a = choose|a: int| 0 <= a < hs.len() && hs[a] == h;
                        assert(near[a] == u);
                        assert(as_ints(store@)[a] == store@[a] as int);
                        assert(as_ints(found@).contains(store@[a] as int));
                    }
                }
                j = j + 1;
            }
            proof {
                assert forall|u: int| #[trigger] as_ints(found@).contains(u) <==> mesh@.within(v, u, (ring + 1) as nat) by {
                    if as_ints(found@).contains(u) {
                        let a = choose|a: int| 0 <= a < as_ints(found@).len() && as_ints(found@)[a] == u;
                        assert(found@[a] as int == u);
                    }
                    if mesh@.within(v, u, (ring + 1) as nat) {
                        if mesh@.within(v, u, ring as nat) {
                            assert(as_ints(found0).contains(u));
                            let a = choose|a: int| 0 <= a < as_ints(found0).len() && as_ints(found0)[a] == u;
                            assert(as_ints(found@)[a] == u);
                        } else {
                            let w = mesh@.lemma_within_last(v, u, ring as nat);
                            assert(as_ints(found0).contains(w));
                            let a = choose|a: int| 0 <= a < as_ints(found0).len() && as_ints(found0)[a] == w;
                            assert(found0[a] as int == w);
                            if a < first {
                                // `w` was within reach a ring earlier, so `u` was within reach already
                                assert(mesh@.within(v, found0[a] as int, (ring - 1) as nat));
                                mesh@.lemma_within_step(v, w, u, (ring - 1) as nat);
                                assert(false);
                            }
                            assert(mesh@.adjacent(found0[a] as int, u));
                        }
                    }
                }
                assert forall|a: int| 0 <= a < end implies mesh@.within(v, #[trigger] found@[a] as int, ring as nat) by {
                    assert(found@[a] == found0[a]);
                    assert(as_ints(found0)[a] == found0[a] as int);
                    assert(as_ints(found0).contains(found0[a] as int));
                }
            }
            first = end;
            ring = ring + 1;
        }
        found
    }
}

} // verus!
