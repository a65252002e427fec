//! The half-edges around a vertex.
use vstd::prelude::*;
use super::model::MeshModel;
use super::model::Rings;

verus! {
/// `s` turned so that it starts at index `p`.
pub open spec fn rotate(s: Seq<int>, p: int) -> Seq<int> {
    s.subrange(p, s.len() as int) + s.subrange(0, p)
}

/// `i` brought back below `len`, for `0 <= i < 2 * len`.
pub open spec fn wrap(i: int, len: int) -> int {
    if i >= len {
        i - len
    } else {
        i
    }
}

/// `r` with `x` put in behind place `p`.
pub open spec fn insert_after(r: Seq<int>, p: int, x: int) -> Seq<int> {
    Seq::new(
        r.len() + 1,
        |j: int|
            if j <= p {
                r[j]
            } else if j == p + 1 {
                x
            } else {
                r[j - 1]
            },
    )
}

/// `r` without place `p`.
pub open spec fn remove_at(r: Seq<int>, p: int) -> Seq<int> {
    Seq::new(
        (r.len() - 1) as nat,
        |j: int|
            if j < p {
                r[j]
            } else {
                r[j + 1]
            },
    )
}

impl<P> MeshModel<P> {
    /// The half-edge reached from `h` by `k` steps around its origin.
    pub open spec fn walk(self, h: int, k: nat) -> int
        decreases k,
    {
        if k == 0 {
            h
        } else {
            self.step(self.walk(h, (k - 1) as nat))
        }
    }

    /// `k` is the number of steps after which the walk from `h` first comes
    /// back to `h`.
    pub open spec fn is_ring_len(self, h: int, k: nat) -> bool {
        &&& k >= 1
        &&& self.walk(h, k) == h
        &&& forall|j: nat| 1 <= j < k ==> #[trigger] self.walk(h, j) != h
    }

    /// The number of steps after which the walk from `h` first comes back.
    pub open spec fn ring_len(self, h: int) -> nat {
        choose|k: nat| self.is_ring_len(h, k)
    }

    /// The half-edges met by stepping around the origin of `h`, starting at
    /// `h` and stopping before `h` comes again.
    pub open spec fn ring_from(self, h: int) -> Seq<int> {
        Seq::new(self.ring_len(h), |i: int| self.walk(h, i as nat))
    }

    /// The half-edges leaving `v`, counter-clockwise from its representative.
    pub open spec fn vertex_ring(self, v: int) -> Seq<int> {
        self.ring_from(self.vertex_rep(v))
    }

    /// The neighbours of `v`, counter-clockwise.
    pub open spec fn one_ring(self, v: int) -> Seq<int> {
        Seq::new(self.vertex_ring(v).len(), |i: int| self.dest(self.vertex_ring(v)[i]))
    }

    /// The faces around `v`, counter-clockwise.
    pub open spec fn faces_around(self, v: int) -> Seq<int> {
        Seq::new(self.vertex_ring(v).len(), |i: int| self.face_of(self.vertex_ring(v)[i]))
    }

    /// The number of edges at `v`.
    pub open spec fn degree(self, v: int) -> nat {
        self.vertex_ring(v).len()
    }

    /// `u` and `v` are joined by an edge.
    pub open spec fn adjacent(self, u: int, v: int) -> bool {
        exists|h: int| self.live(h) && #[trigger] self.arc(h) == (u, v)
    }

    /// Around a live half-edge: its face's other two half-edges and its twin
    /// are live and well linked too.
    pub proof fn lemma_around(self, h: int)
        requires
            self.links_ok(),
            self.live(h),
        ensures
            self.dart_ok(h),
            self.live(self.next(h)),
            self.dart_ok(self.next(h)),
            self.live(self.prev(h)),
            self.dart_ok(self.prev(h)),
            self.next(self.prev(h)) == h,
            self.live(self.twin(h)),
            self.dart_ok(self.twin(h)),
            self.prev(h) != h,
            self.prev(h) != self.next(h),
            self.origin(self.prev(h)) != self.origin(h),
            self.origin(self.prev(h)) != self.origin(self.next(h)),
            self.twin(h) != h,
            self.twin(h) != self.next(h),
            self.twin(h) != self.prev(h),
            self.face_of(self.twin(h)) != self.face_of(h),
    {
        assert(self.dart_ok(h));
        let nx = self.next(h);
        assert(self.live(nx));
        assert(self.dart_ok(nx));
        let pv = self.next(nx);
        assert(self.live(pv));
        assert(self.dart_ok(pv));
        let t = self.twin(h);
        assert(self.dart_ok(t));
        assert(self.live(self.next(t)));
        assert(self.dart_ok(self.next(t)));
        assert(self.live(self.prev(t)));
        assert(self.dart_ok(self.prev(t)));
    }

    /// `step` keeps the origin and leads to a live half-edge; `step_back`
    /// undoes it.
    pub proof fn lemma_step(self, h: int)
        requires
            self.links_ok(),
            self.live(h),
        ensures
            self.live(self.step(h)),
            self.origin(self.step(h)) == self.origin(h),
            self.step_back(self.step(h)) == h,
            self.live(self.step_back(h)),
            self.origin(self.step_back(h)) == self.origin(h),
            self.step(self.step_back(h)) == h,
    {
        self.lemma_around(h);
        self.lemma_around(self.prev(h));
        self.lemma_around(self.twin(h));
        self.lemma_around(self.next(self.twin(h)));
    }

    /// Walking `k` steps from a live half-edge moves `k` places along the
    /// ring of its origin.
    pub proof fn lemma_walk(self, g: Rings, h: int, k: nat)
        requires
            self.links_ok(),
            self.rings_ok(g),
            self.live(h),
            k <= g.ring[self.origin(h)].len(),
        ensures
            self.walk(h, k) == g.ring[self.origin(h)][wrap(g.pos[h] + k, g.ring[self.origin(h)].len() as int)],
            self.live(self.walk(h, k)),
            self.origin(self.walk(h, k)) == self.origin(h),
            g.pos[self.walk(h, k)] == wrap(g.pos[h] + k, g.ring[self.origin(h)].len() as int),
        decreases k,
    {
        let v = self.origin(h);
        assert(self.dart_ok(h));
        assert(self.dart_in_ring(g, h));
        if k == 0 {
            assert(self.ring_slot_ok(g, v, g.pos[h]));
        } else {
            self.lemma_walk(g, h, (k - 1) as nat);
            let w = self.walk(h, (k - 1) as nat);
            let i = g.pos[w];
            assert(self.dart_in_ring(g, w));
            assert(self.ring_slot_ok(g, v, i));
            let j = if i + 1 == g.ring[v].len() { 0 } else { i + 1 };
            assert(self.ring_slot_ok(g, v, j));
        }
    }

    /// The walk from a live half-edge first returns after as many steps as
    /// its origin's ring is long, and meets the ring in order.
    pub proof fn lemma_ring_from(self, g: Rings, h: int)
        requires
            self.links_ok(),
            self.rings_ok(g),
            self.live(h),
        ensures
            self.is_ring_len(h, g.ring[self.origin(h)].len()),
            self.ring_len(h) == g.ring[self.origin(h)].len(),
            self.ring_from(h) =~= rotate(g.ring[self.origin(h)], g.pos[h]),
    {
        let v = self.origin(h);
        let r = g.ring[v];
        let len = r.len();
        assert(self.dart_ok(h));
        assert(self.dart_in_ring(g, h));
        self.lemma_walk(g, h, len);
        assert forall|j: nat| 1 <= j < len implies #[trigger] self.walk(h, j) != h by {
            self.lemma_walk(g, h, j);
        }
        assert(self.is_ring_len(h, len));
        let k = self.ring_len(h);
        assert(self.is_ring_len(h, k));
        if k < len {
            self.lemma_walk(g, h, k);
            assert(self.walk(h, k) != h);
        } else if k > len {
            assert(self.walk(h, len) != h);
        }
        assert forall|i: int| 0 <= i < len implies self.ring_from(h)[i] == rotate(r, g.pos[h])[i] by {
            self.lemma_walk(g, h, i as nat);
        }
    }

    /// Place `i` of the ring of `v` holds a live half-edge leaving `v`, and
    /// `step` leads from it to the next place, cyclically.
    pub open spec fn ring_place_ok(self, v: int, i: int) -> bool {
        let ring = self.vertex_ring(v);
        let h = ring[i];
        &&& self.live(h)
        &&& self.origin(h) == v
        &&& self.step(h) == ring[if i + 1 == ring.len() { 0 } else { i + 1 }]
    }

    /// Each live half-edge occurs in the ring of its origin, and the ring
    /// holds nothing else and nothing twice.
    pub proof fn lemma_vertex_ring_with(self, g: Rings, v: int)
        requires
            self.links_ok(),
            self.rings_ok(g),
            self.live_vertex(v),
        ensures
            self.degree(v) >= 1,
            self.degree(v) <= self.half_edges.len(),
            self.vertex_ring(v)[0] == self.vertex_rep(v),
            forall|i: int| 0 <= i < self.degree(v) ==> #[trigger] self.ring_place_ok(v, i),
            self.vertex_ring(v).no_duplicates(),
            forall|h: int| self.live(h) && self.origin(h) == v ==> self.vertex_ring(v).contains(h),
            self.vertex_ring(v) == rotate(g.ring[v], g.pos[self.vertex_rep(v)]),
    {
        let rep = self.vertex_rep(v);
        assert(self.vertex_ok(v));
        self.lemma_ring_from(g, rep);
        self.lemma_ring_bound(g, v);
        let r = g.ring[v];
        let len = r.len() as int;
        let p = g.pos[rep];
        let ring = self.vertex_ring(v);
        assert(self.dart_in_ring(g, rep));
        assert(ring =~= rotate(r, p));
        assert(ring.len() == len);
        assert forall|i: int| 0 <= i < len implies #[trigger] ring[i] == r[wrap(p + i, len)] by {}
        assert forall|i: int| 0 <= i < self.degree(v) implies #[trigger] self.ring_place_ok(v, i) by {
            let k = wrap(p + i, len);
            let i2 = if i + 1 == len { 0 } else { i + 1 };
            assert(ring[i] == r[k]);
            assert(ring[i2] == r[wrap(p + i2, len)]);
            assert(self.ring_slot_ok(g, v, k));
        }
        assert forall|i: int, j: int| 0 <= i < len && 0 <= j < len && i != j implies ring[i] != ring[j] by {
            assert(ring[i] == r[wrap(p + i, len)]);
            assert(ring[j] == r[wrap(p + j, len)]);
        }
        assert forall|h: int| self.live(h) && self.origin(h) == v implies ring.contains(h) by {
            assert(self.dart_in_ring(g, h));
            let q = g.pos[h];
            let i = if q >= p { q - p } else { q - p + len };
            assert(ring[i] == r[wrap(p + i, len)]);
            assert(ring[i] == h);
        }
    }

    /// Each live half-edge occurs in the ring of its origin, and the ring
    /// holds nothing else and nothing twice.
    pub proof fn lemma_vertex_ring(self, v: int)
        requires
            self.wf(),
            self.live_vertex(v),
        ensures
            self.degree(v) >= 1,
            self.degree(v) <= self.half_edges.len(),
            self.vertex_ring(v)[0] == self.vertex_rep(v),
            forall|i: int| 0 <= i < self.degree(v) ==> #[trigger] self.ring_place_ok(v, i),
            self.vertex_ring(v).no_duplicates(),
            forall|h: int| self.live(h) && self.origin(h) == v ==> self.vertex_ring(v).contains(h),
    {
        self.lemma_vertex_ring_with(self.rings(), v);
    }

    /// The number of steps after which a walk first returns is determined.
    pub proof fn lemma_ring_len_unique(self, h: int, k: nat)
        requires
            self.is_ring_len(h, k),
        ensures
            self.ring_len(h) == k,
    {
        let c = self.ring_len(h);
        assert(self.is_ring_len(h, c));
        if c < k {
            assert(self.walk(h, c) != h);
        } else if k < c {
            assert(self.walk(h, k) != h);
        }
    }

    /// A walk stays among the live half-edges of one vertex.
    pub proof fn lemma_walk_live(self, h: int, k: nat)
        requires
            self.links_ok(),
            self.live(h),
        ensures
            self.live(self.walk(h, k)),
            self.origin(self.walk(h, k)) == self.origin(h),
        decreases k,
    {
        if k > 0 {
            self.lemma_walk_live(h, (k - 1) as nat);
            self.lemma_step(self.walk(h, (k - 1) as nat));
        }
    }

    /// A walk that meets a half-edge twice has come back to its start in
    /// between.
    pub proof fn lemma_walk_injective(self, h: int, j: nat, k: nat)
        requires
            self.links_ok(),
            self.live(h),
            j <= k,
            self.walk(h, j) == self.walk(h, k),
        ensures
            self.walk(h, (k - j) as nat) == h,
        decreases j,
    {
        if j > 0 {
            let a = self.walk(h, (j - 1) as nat);
            let b = self.walk(h, (k - 1) as nat);
            self.lemma_walk_live(h, (j - 1) as nat);
            self.lemma_walk_live(h, (k - 1) as nat);
            self.lemma_step(a);
            self.lemma_step(b);
            self.lemma_walk_injective(h, (j - 1) as nat, (k - 1) as nat);
        }
    }

    /// A ring is no longer than the half-edge array.
    pub proof fn lemma_ring_bound(self, g: Rings, v: int)
        requires
            self.links_ok(),
            self.rings_ok(g),
            self.live_vertex(v),
        ensures
            g.ring[v].len() <= self.half_edges.len(),
            g.ring[v].no_duplicates(),
    {
        let r = g.ring[v];
        assert forall|i: int, j: int| 0 <= i < r.len() && 0 <= j < r.len() && i != j implies r[i] != r[j] by {
            assert(self.ring_slot_ok(g, v, i));
            assert(self.ring_slot_ok(g, v, j));
        }
        let n = self.half_edges.len() as int;
        assert forall|i: int| 0 <= i < r.len() implies 0 <= #[trigger] r[i] < n by {
            assert(self.ring_slot_ok(g, v, i));
        }
        lemma_distinct_bounded(r, n);
    }
}

/// A sequence of distinct numbers below `n` has at most `n` members.
pub proof fn lemma_distinct_bounded(s: Seq<int>, n: int)
    requires
        0 <= n,
        s.no_duplicates(),
        forall|i: int| 0 <= i < s.len() ==> 0 <= #[trigger] s[i] < n,
    ensures
        s.len() <= n,
{
    if n == 0 {
        if s.len() > 0 {
            assert(0 <= s[0] < n);
        }
    } else {
        let below = vstd::set_lib::set_int_range(0, n);
        vstd::set_lib::lemma_int_range(0, n);
        s.unique_seq_to_set();
        assert forall|x: int| s.to_set().contains(x) implies below.contains(x) by {
            assert(s.contains(x));
            let i = choose|i: int| 0 <= i < s.len() && s[i] == x;
            assert(0 <= s[i] < n);
        }
        assert(s.to_set().subset_of(below));
        vstd::set_lib::lemma_len_subset(s.to_set(), below);
    }
}

} // verus!
