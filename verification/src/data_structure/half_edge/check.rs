//! Checking at run time whether a store holds a well-formed surface.
use std::collections::HashSet;
use vstd::prelude::*;
use super::HalfEdge;
use super::super::model::MeshModel;
use super::super::model::Rings;
use super::super::slots::count_occupied;
use super::super::model::HalfEdgeRef;
use super::super::model::IndexType;

verus! {
/// The number of `false` entries.
pub open spec fn count_unmarked(s: Seq<bool>) -> nat
    decreases s.len(),
{
    if s.len() == 0 {
        0
    } else {
        count_unmarked(s.drop_last()) + if s.last() { 0nat } else { 1nat }
    }
}

/// Marking an entry leaves one unmarked entry less.
proof fn lemma_mark(s: Seq<bool>, i: int)
    requires
        0 <= i < s.len(),
        !s[i],
    ensures
        count_unmarked(s.update(i, true)) + 1 == count_unmarked(s),
    decreases s.len(),
{
    let t = s.update(i, true);
    if i == s.len() - 1 {
        assert(t.drop_last() =~= s.drop_last());
    } else {
        assert(t.drop_last() =~= s.drop_last().update(i, true));
        lemma_mark(s.drop_last(), i);
    }
}

impl<P> MeshModel<P> {
    /// What holds while the rings are being checked, after the vertices
    /// below `v` have been walked around: every marked half-edge leaves one
    /// of them and sits in its recorded ring; those rings are complete; the
    /// others are empty still.
    pub open spec fn marks_ok(self, seen: Seq<bool>, g: Rings, v: int) -> bool {
        let n = self.half_edges.len();
        let nv = self.vertices.len();
        &&& seen.len() == n
        &&& g.pos.len() == n
        &&& g.ring.len() == nv
        &&& forall|h: int|
            0 <= h < n && #[trigger] seen[h] ==> self.live(h) && self.origin(h) < v && self.dart_in_ring(g, h)
        &&& forall|u: int, i: int|
            0 <= u < v && self.live_vertex(u) && 0 <= i < g.ring[u].len() ==> #[trigger] self.ring_slot_ok(g, u, i)
                && seen[g.ring[u][i]]
        &&& forall|u: int| 0 <= u < v && self.live_vertex(u) ==> #[trigger] g.ring[u] == self.vertex_ring(u)
        &&& forall|u: int| v <= u < nv ==> (#[trigger] g.ring[u]).len() == 0
    }

    /// The arc of `h` as one number.
    pub open spec fn arc_key(self, h: int) -> int {
        self.origin(h) * 0x1_0000_0000 + self.dest(h)
    }
}

impl<P: Copy> HalfEdge<P> {
    /// Whether the links around a live half-edge are as they should be.
    pub fn verify_half_edge_valid(&self, half_edge_idx: IndexType) -> (r: bool)
        requires
            self@.faces_in_range(),
            self@.live(half_edge_idx as int),
        ensures
            r == self@.dart_ok(half_edge_idx as int),
    {
        let h: IndexType = half_edge_idx;
        let n: usize = self.half_edge_refs.len();
        let rec: HalfEdgeRef = self.half_edge_refs[h as usize];
        let t: IndexType = match rec.twin_idx {
            Some(t) => t,
            None => {
                return false;
            },
        };
        let nx: IndexType = rec.next_idx;
        if nx as usize >= n || nx == h {
            return false;
        }
        let rn: HalfEdgeRef = self.half_edge_refs[nx as usize];
        if rn.face_idx != rec.face_idx {
            return false;
        }
        let pv: IndexType = rn.next_idx;
        if pv as usize >= n {
            return false;
        }
        let rp: HalfEdgeRef = self.half_edge_refs[pv as usize];
        if rp.next_idx != h {
            return false;
        }
        if t as usize >= n {
            return false;
        }
        let rt: HalfEdgeRef = self.half_edge_refs[t as usize];
        proof {
            assert(self@.face_of(t as int) < self@.faces.len());
            assert(self@.face_of(h as int) < self@.faces.len());
        }
        if self.face_refs[rt.face_idx as usize].is_none() {
            return false;
        }
        match rt.twin_idx {
            Some(tt) => {
                if tt != h {
                    return false;
                }
            },
            None => {
                return false;
            },
        }
        let tn: IndexType = rt.next_idx;
        if tn as usize >= n {
            return false;
        }
        let tp: IndexType = self.half_edge_refs[tn as usize].next_idx;
        if tp as usize >= n {
            return false;
        }
        if rt.vertex_idx != rn.vertex_idx || rt.edge_idx != rec.edge_idx {
            return false;
        }
        let e: IndexType = rec.edge_idx;
        if e as usize >= self.edge_refs.len() {
            return false;
        }
        match &self.edge_refs[e as usize] {
            Some(er) => {
                if er.half_edge_idx != h && er.half_edge_idx != t {
                    return false;
                }
            },
            None => {
                return false;
            },
        }
        let v: IndexType = rec.vertex_idx;
        if v as usize >= self.vertex_refs.len() || self.vertex_refs[v as usize].is_none() {
            return false;
        }
        if rn.vertex_idx == v {
            return false;
        }
        match &self.face_refs[rec.face_idx as usize] {
            Some(fr) => {
                if fr.half_edge_idx != h && fr.half_edge_idx != nx && fr.half_edge_idx != pv {
                    return false;
                }
            },
            None => {},
        }
        rp.vertex_idx != self.half_edge_refs[tp as usize].vertex_idx
    }

    /// Whether a live vertex names one of its own live half-edges.
    pub fn verify_vertex_valid(&self, vertex_idx: IndexType) -> (r: bool)
        requires
            self@.faces_in_range(),
            self@.live_vertex(vertex_idx as int),
        ensures
            r == self@.vertex_ok(vertex_idx as int),
    {
        let h: IndexType = self.vertex_rep(vertex_idx);
        if h as usize >= self.half_edge_refs.len() {
            return false;
        }
        let rec: HalfEdgeRef = self.half_edge_refs[h as usize];
        proof {
            assert(self@.face_of(h as int) < self@.faces.len());
        }
        self.face_refs[rec.face_idx as usize].is_some() && rec.vertex_idx == vertex_idx
    }

    /// Whether a live edge names one of its own live half-edges.
    pub fn verify_edge_valid(&self, edge_idx: IndexType) -> (r: bool)
        requires
            self@.faces_in_range(),
            self@.live_edge(edge_idx as int),
        ensures
            r == self@.edge_ok(edge_idx as int),
    {
        let h: IndexType = self.edge_rep(edge_idx);
        if h as usize >= self.half_edge_refs.len() {
            return false;
        }
        let rec: HalfEdgeRef = self.half_edge_refs[h as usize];
        proof {
            assert(self@.face_of(h as int) < self@.faces.len());
        }
        self.face_refs[rec.face_idx as usize].is_some() && rec.edge_idx == edge_idx
    }

    /// Whether a live face names one of its own half-edges.
    pub fn verify_face_valid(&self, face_idx: IndexType) -> (r: bool)
        requires
            self@.live_face(face_idx as int),
        ensures
            r == self@.face_ok(face_idx as int),
    {
        let h: IndexType = self.face_rep(face_idx);
        if h as usize >= self.half_edge_refs.len() {
            return false;
        }
        self.half_edge_refs[h as usize].face_idx == face_idx
    }

    /// Whether the pointer relations between live entities hold.
    fn check_links(&self) -> (r: bool)
        ensures
            r == self@.links_ok(),
    {
        let n: usize = self.half_edge_refs.len();
        if n > 0xffff_ffff || self.vertex_refs.len() > 0xffff_ffff || self.edge_refs.len() > 0xffff_ffff
            || self.face_refs.len() > 0xffff_ffff {
            return false;
        }
        let mut i: usize = 0;
        while i < n
            invariant
                n == self@.half_edges.len(),
                i <= n,
                forall|h: int| 0 <= h < i ==> #[trigger] self@.face_of(h) < self@.faces.len(),
            decreases n - i,
        {
            if self.half_edge_refs[i].face_idx as usize >= self.face_refs.len() {
                proof {
                    assert(!(self@.face_of(i as int) < self@.faces.len()));
                }
                return false;
            }
            i = i + 1;
        }
        let mut i: usize = 0;
        while i < n
            invariant
                n == self@.half_edges.len(),
                self@.sizes_ok(),
                self@.faces_in_range(),
                i <= n,
                forall|h: int| 0 <= h < i && self@.live(h) ==> #[trigger] self@.dart_ok(h),
            decreases n - i,
        {
            proof {
                assert(self@.face_of(i as int) < self@.faces.len());
            }
            if self.face_refs[self.half_edge_refs[i].face_idx as usize].is_some() {
                if !self.verify_half_edge_valid(i as IndexType) {
                    proof {
                        assert(self@.live(i as int) && !self@.dart_ok(i as int));
                    }
                    return false;
                }
            }
            i = i + 1;
        }
        let mut i: usize = 0;
        while i < self.vertex_refs.len()
            invariant
                self@.sizes_ok(),
                self@.faces_in_range(),
                i <= self@.vertices.len(),
                forall|v: int| 0 <= v < i && self@.live_vertex(v) ==> #[trigger] self@.vertex_ok(v),
            decreases self.vertex_refs.len() - i,
        {
            if self.vertex_refs[i].is_some() && !self.verify_vertex_valid(i as IndexType) {
                proof {
                    assert(self@.live_vertex(i as int) && !self@.vertex_ok(i as int));
                }
                return false;
            }
            i = i + 1;
        }
        let mut i: usize = 0;
        while i < self.edge_refs.len()
            invariant
                self@.sizes_ok(),
                self@.faces_in_range(),
                i <= self@.edges.len(),
                forall|e: int| 0 <= e < i && self@.live_edge(e) ==> #[trigger] self@.edge_ok(e),
            decreases self.edge_refs.len() - i,
        {
            if self.edge_refs[i].is_some() && !self.verify_edge_valid(i as IndexType) {
                proof {
                    assert(self@.live_edge(i as int) && !self@.edge_ok(i as int));
                }
                return false;
            }
            i = i + 1;
        }
        let mut i: usize = 0;
        while i < self.face_refs.len()
            invariant
                self@.sizes_ok(),
                i <= self@.faces.len(),
                forall|f: int| 0 <= f < i && self@.live_face(f) ==> #[trigger] self@.face_ok(f),
            decreases self.face_refs.len() - i,
        {
            if self.face_refs[i].is_some() && !self.verify_face_valid(i as IndexType) {
                proof {
                    assert(self@.live_face(i as int) && !self@.face_ok(i as int));
                }
                return false;
            }
            i = i + 1;
        }
        true
    }

    /// Whether no two live half-edges run between the same ordered pair of
    /// vertices.
    fn check_arcs(&self) -> (r: bool)
        requires
            self@.links_ok(),
        ensures
            r == self@.arcs_distinct(),
    {
        let n: usize = self.half_edge_refs.len();
        let mut seen: HashSet<u64> = HashSet::new();
        let ghost mut owner: Map<u64, int> = Map::empty();
        let mut i: usize = 0;
        while i < n
            invariant
                self@.links_ok(),
                n == self@.half_edges.len(),
                i <= n,
                forall|h: int| 0 <= h < i && self@.live(h) ==> seen@.contains(#[trigger] self@.arc_key(h) as u64),
                forall|k: u64| #[trigger]
                    seen@.contains(k) ==> 0 <= owner[k] < i && self@.live(owner[k]) && self@.arc_key(owner[k]) == k,
                forall|h1: int, h2: int|
                    0 <= h1 < i && 0 <= h2 < i && self@.live(h1) && self@.live(h2) && #[trigger] self@.arc(h1)
                        == #[trigger] self@.arc(h2) ==> h1 == h2,
            decreases n - i,
        {
            proof {
                assert(self@.face_of(i as int) < self@.faces.len());
            }
            if self.face_refs[self.half_edge_refs[i].face_idx as usize].is_some() {
                proof {
                    self@.lemma_around(i as int);
                }
                let from: IndexType = self.origin_of(i as IndexType);
                let to: IndexType = self.origin_of(self.next_of(i as IndexType));
                let key: u64 = (from as u64) * 0x1_0000_0000 + (to as u64);
                proof {
                    assert(key == self@.arc_key(i as int));
                }
                let ghost seen0 = seen@;
                let fresh: bool = seen.insert(key);
                if !fresh {
                    proof {
                        let h = owner[key];
                        assert(self@.live(h) && self@.arc_key(h) == key && h != i);
                        self@.lemma_around(h);
                        assert(self@.arc(h) == self@.arc(i as int));
                    }
                    return false;
                }
                proof {
                    owner = owner.insert(key, i as int);
                    assert forall|h1: int, h2: int|
                        0 <= h1 < i + 1 && 0 <= h2 < i + 1 && self@.live(h1) && self@.live(h2) && #[trigger] self@.arc(
                            h1,
                        ) == #[trigger] self@.arc(h2) implies h1 == h2 by {
                        if h1 != h2 {
                            let a = if h1 == i { h2 } else { h1 };
                            self@.lemma_around(a);
                            assert(self@.arc_key(a) == self@.arc_key(i as int));
                            assert(seen0.contains(self@.arc_key(a) as u64));
                        }
                    }
                }
            }
            i = i + 1;
        }
        true
    }

    /// Marks the half-edges met by walking once around a live vertex.
    fn mark_ring(&self, v: usize, seen: &mut Vec<bool>, Ghost(g0): Ghost<Rings>) -> (out: Ghost<Rings>)
        requires
            self@.links_ok(),
            self@.live_vertex(v as int),
            self@.marks_ok(old(seen)@, g0, v as int),
        ensures
            self@.marks_ok(final(seen)@, out@, v + 1),
    {
        let ghost n = self@.half_edges.len();
        let ghost nv = self@.vertices.len();
        let ghost seen0 = seen@;
        let start: IndexType = self.vertex_rep(v as IndexType);
        proof {
            assert(self@.vertex_ok(v as int));
            count_unmarked_bound(seen@);
            assert(g0.ring[v as int].len() == 0);
        }
        let mut h: IndexType = start;
        let mut c: usize = 0;
        let ghost mut g = g0;
        loop
            invariant_except_break
                h as int == self@.walk(start as int, c as nat),
                forall|j: nat| 0 < j <= c ==> #[trigger] self@.walk(start as int, j) != start,
            invariant
                self@.links_ok(),
                n == self@.half_edges.len(),
                nv == self@.vertices.len(),
                self@.live_vertex(v as int),
                start == self@.vertex_rep(v as int),
                self@.live(start as int),
                self@.origin(start as int) == v,
                v < nv,
                g.pos.len() == n,
                g.ring.len() == nv,
                seen@.len() == n,
                seen0.len() == n,
                g.ring[v as int].len() == c,
                c + count_unmarked(seen@) <= n,
                self@.marks_ok(seen0, g0, v as int),
                forall|u: int| 0 <= u < nv && u != v ==> #[trigger] g.ring[u] == g0.ring[u],
                forall|k: int| 0 <= k < n && #[trigger] seen0[k] ==> seen@[k] && g.pos[k] == g0.pos[k],
                forall|k: int|
                    0 <= k < n && #[trigger] seen@[k] && !seen0[k] ==> self@.live(k) && self@.origin(k) == v && 0
                        <= g.pos[k] < c && g.ring[v as int][g.pos[k]] == k,
                forall|i: int|
                    0 <= i < c ==> {
                        let w = #[trigger] self@.walk(start as int, i as nat);
                        g.ring[v as int][i] == w && 0 <= w < n && g.pos[w] == i && seen@[w] && !seen0[w]
                    },
            ensures
                c >= 1,
                self@.is_ring_len(start as int, c as nat),
            decreases count_unmarked(seen@),
        {
            proof {
                self@.lemma_walk_live(start as int, c as nat);
                if seen@[h as int] {
                    if seen0[h as int] {
                        assert(false);
                    }
                    let p = g.pos[h as int];
                    assert(0 <= p < c);
                    assert(g.ring[v as int][p] == self@.walk(start as int, p as nat));
                    self@.lemma_walk_injective(start as int, p as nat, c as nat);
                    assert(self@.walk(start as int, (c - p) as nat) != start);
                    assert(false);
                }
                lemma_mark(seen@, h as int);
            }
            let ghost g1 = g;
            let ghost seen1 = seen@;
            seen[h as usize] = true;
            proof {
                g = Rings {
                    pos: g.pos.update(h as int, c as int),
                    ring: g.ring.update(v as int, g.ring[v as int].push(h as int)),
                };
                assert forall|i: int| 0 <= i < c + 1 implies {
                    let w = #[trigger] self@.walk(start as int, i as nat);
                    g.ring[v as int][i] == w && 0 <= w < n && g.pos[w] == i && seen@[w] && !seen0[w]
                } by {
                    let w = self@.walk(start as int, i as nat);
                    if i < c {
                        assert(g1.ring[v as int][i] == w);
                        assert(seen1[w]);
                        assert(w != h);
                    }
                }
                assert forall|k: int| 0 <= k < n && #[trigger] seen@[k] && !seen0[k] implies self@.live(k)
                    && self@.origin(k) == v && 0 <= g.pos[k] < c + 1 && g.ring[v as int][g.pos[k]] == k by {
                    if k != h {
                        assert(seen1[k]);
                    }
                }
                assert forall|k: int| 0 <= k < n && #[trigger] seen0[k] implies seen@[k] && g.pos[k] == g0.pos[k] by {
                    assert(seen1[k]);
                }
                self@.lemma_around(h as int);
                self@.lemma_around(self@.prev(h as int));
                self@.lemma_step(h as int);
            }
            let nx: IndexType = self.next_of(h);
            let pv: IndexType = self.next_of(nx);
            h = self.twin_of(pv);
            c = c + 1;
            proof {
                assert(self@.walk(start as int, c as nat) == self@.step(self@.walk(start as int, (c - 1) as nat)));
            }
            if h == start {
                break ;
            }
        }
        proof {
            self@.lemma_ring_len_unique(start as int, c as nat);
            assert forall|i: int| 0 <= i < c implies g.ring[v as int][i] == self@.walk(start as int, i as nat) by {
                let w = self@.walk(start as int, i as nat);
                assert(g.ring[v as int][i] == w);
            }
            assert(g.ring[v as int] =~= self@.vertex_ring(v as int));
            assert forall|k: int| 0 <= k < n && #[trigger] seen@[k] implies self@.live(k) && self@.origin(k) < v + 1
                && self@.dart_in_ring(g, k) by {
                if seen0[k] {
                    assert(self@.dart_in_ring(g0, k));
                }
            }
            assert forall|u: int, i: int|
                0 <= u < v + 1 && self@.live_vertex(u) && 0 <= i < g.ring[u].len() implies #[trigger] self@.ring_slot_ok(
                    g,
                    u,
                    i,
                ) && seen@[g.ring[u][i]] by {
                if u < v {
                    assert(g.ring[u] == g0.ring[u]);
                    assert(self@.ring_slot_ok(g0, u, i));
                    let j = if i + 1 == g0.ring[u].len() { 0 } else { i + 1 };
                    assert(self@.ring_slot_ok(g0, u, j));
                    assert(seen0[g0.ring[u][i]]);
                    assert(seen0[g0.ring[u][j]]);
                } else {
                    self@.lemma_walk_live(start as int, i as nat);
                    let j = if i + 1 == c { 0 } else { i + 1 };
                    let w = self@.walk(start as int, i as nat);
                    let w2 = self@.walk(start as int, j as nat);
                    assert(g.ring[v as int][i] == w);
                    assert(g.ring[v as int][j] == w2);
                    assert(self@.walk(start as int, (i + 1) as nat) == self@.step(w));
                }
            }
            assert forall|u: int| 0 <= u < v + 1 && self@.live_vertex(u) implies #[trigger] g.ring[u] == self@.vertex_ring(
                u,
            ) by {
                if u < v {
                    assert(g.ring[u] == g0.ring[u]);
                }
            }
            assert forall|u: int| v + 1 <= u < nv implies (#[trigger] g.ring[u]).len() == 0 by {
                assert(g.ring[u] == g0.ring[u]);
            }
        }
        Ghost(g)
    }

    /// Whether the half-edges leaving each live vertex form one cycle.
    fn check_rings(&self) -> (r: bool)
        requires
            self@.links_ok(),
        ensures
            r == exists|g: Rings| self@.rings_ok(g),
    {
        let n: usize = self.half_edge_refs.len();
        let nv: usize = self.vertex_refs.len();
        let mut seen: Vec<bool> = Vec::new();
        let mut i: usize = 0;
        while i < n
            invariant
                i <= n,
                seen@.len() == i,
                forall|h: int| 0 <= h < i ==> !seen@[h],
            decreases n - i,
        {
            seen.push(false);
            i = i + 1;
        }
        let ghost mut g = Rings { pos: Seq::new(n as nat, |h: int| 0int), ring: Seq::new(nv as nat, |u: int| Seq::empty()) };
        let mut v: usize = 0;
        while v < nv
            invariant
                self@.links_ok(),
                n == self@.half_edges.len(),
                nv == self@.vertices.len(),
                v <= nv,
                self@.marks_ok(seen@, g, v as int),
            decreases nv - v,
        {
            if self.vertex_refs[v].is_some() {
                let out = self.mark_ring(v, &mut seen, Ghost(g));
                proof {
                    g = out@;
                }
            } else {
                proof {
                    assert(g.ring[v as int].len() == 0);
                }
            }
            v = v + 1;
        }
        let mut i: usize = 0;
        while i < n
            invariant
                self@.links_ok(),
                n == self@.half_edges.len(),
                nv == self@.vertices.len(),
                self@.marks_ok(seen@, g, nv as int),
                i <= n,
                forall|h: int| 0 <= h < i && self@.live(h) ==> seen@[h],
            decreases n - i,
        {
            proof {
                assert(self@.face_of(i as int) < self@.faces.len());
            }
            if self.face_refs[self.half_edge_refs[i].face_idx as usize].is_some() && !seen[i] {
                proof {
                    if exists|g2: Rings| self@.rings_ok(g2) {
                        let g2 = choose|g2: Rings| self@.rings_ok(g2);
                        let u = self@.origin(i as int);
                        assert(self@.dart_ok(i as int));
                        self@.lemma_vertex_ring_with(g2, u);
                        assert(self@.vertex_ring(u).contains(i as int));
                        let j = choose|j: int| 0 <= j < self@.vertex_ring(u).len() && self@.vertex_ring(u)[j] == i;
                        assert(g.ring[u] == self@.vertex_ring(u));
                        assert(self@.ring_slot_ok(g, u, j));
                        assert(false);
                    }
                }
                return false;
            }
            i = i + 1;
        }
        proof {
            assert forall|h: int| self@.live(h) implies #[trigger] self@.dart_in_ring(g, h) by {
                assert(seen@[h]);
            }
            assert forall|u: int, i: int| self@.live_vertex(u) && 0 <= i < g.ring[u].len() implies #[trigger] self@.ring_slot_ok(g, u, i) by {}
            assert(self@.rings_ok(g));
        }
        true
    }

    /// Whether the store holds a well-formed surface.
    pub fn check_all(&self) -> (r: bool)
        ensures
            r == self.wf(),
    {
        if !self.check_links() {
            return false;
        }
        if !self.check_arcs() {
            return false;
        }
        if !self.check_rings() {
            return false;
        }
        let faces: usize = count_occupied(&self.face_refs);
        let edges: usize = count_occupied(&self.edge_refs);
        let vertices: usize = count_occupied(&self.vertex_refs);
        proof {
            super::super::slots::lemma_count_live_bound(self.face_refs@);
            super::super::slots::lemma_count_live_bound(self.edge_refs@);
            super::super::slots::lemma_count_live_bound(self.vertex_refs@);
        }
        if (faces as u64) * 3 != (edges as u64) * 2 {
            return false;
        }
        self.vertex_refs.len() - vertices == self.num_removed_vertices && self.edge_refs.len() - edges
            == self.num_removed_edges && self.face_refs.len() - faces == self.num_removed_faces
    }
}

/// There are no more unmarked entries than entries.
proof fn count_unmarked_bound(s: Seq<bool>)
    ensures
        count_unmarked(s) <= s.len(),
    decreases s.len(),
{
    if s.len() > 0 {
        count_unmarked_bound(s.drop_last());
    }
}

} // verus!
