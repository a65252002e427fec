//! What it means for a list of triangles to form a closed manifold
//! surface.
use vstd::prelude::*;
use super::construct::Face;
use super::model::IndexType;

verus! {
/// The point at which side `s` of a list of triangles starts.  The sides of
/// triangle `i` are numbered `3 i`, `3 i + 1` and `3 i + 2`.
pub open spec fn tail(faces: Seq<Face>, s: int) -> IndexType {
    faces[s / 3][s % 3]
}

/// The point at which side `s` ends.
pub open spec fn head(faces: Seq<Face>, s: int) -> IndexType {
    faces[s / 3][(s % 3 + 1) % 3]
}

/// The side that follows `s` around its triangle.
pub open spec fn after(s: int) -> int {
    if s % 3 == 2 {
        s - 2
    } else {
        s + 1
    }
}

/// The side that comes before `s` around its triangle.
pub open spec fn before(s: int) -> int {
    if s % 3 == 0 {
        s + 2
    } else {
        s - 1
    }
}

/// The three sides of a triangle follow each other round.
pub proof fn lemma_sides(faces: Seq<Face>, s: int)
    requires
        0 <= s,
    ensures
        after(s) / 3 == s / 3,
        before(s) / 3 == s / 3,
        0 <= after(s),
        0 <= before(s),
        after(s) != s,
        before(s) != s,
        after(s) != before(s),
        after(after(s)) == before(s),
        after(before(s)) == s,
        before(after(s)) == s,
        s < 3 * faces.len() ==> after(s) < 3 * faces.len() && before(s) < 3 * faces.len(),
        tail(faces, after(s)) == head(faces, s),
        head(faces, before(s)) == tail(faces, s),
        s == 3 * (s / 3) || after(s) == 3 * (s / 3) || before(s) == 3 * (s / 3),
{
}

/// How the sides of a list of triangles fit together into a closed
/// surface: `opp[s]` is the side that runs along `s` the other way, and
/// `ring[p]` lists the sides that start at point `p` in counter-clockwise
/// order, `pos[s]` being the place of `s` in the ring of its tail.
pub ghost struct Gluing {
    pub opp: Seq<int>,
    pub pos: Seq<int>,
    pub ring: Seq<Seq<int>>,
}

/// Side `s` has a side running the other way along it, is no loop, has
/// another apex than that side, and sits at its place in the ring of its
/// tail.
pub open spec fn side_glued(count: int, faces: Seq<Face>, w: Gluing, s: int) -> bool {
    let o = w.opp[s];
    let r = w.ring[tail(faces, s) as int];
    &&& (tail(faces, s) as int) < count
    &&& 0 <= o < 3 * faces.len()
    &&& tail(faces, o) == head(faces, s)
    &&& head(faces, o) == tail(faces, s)
    &&& tail(faces, s) != head(faces, s)
    &&& tail(faces, before(s)) != tail(faces, before(o))
    &&& 0 <= w.pos[s] < r.len()
    &&& r[w.pos[s]] == s
}

/// Place `i` of the ring of point `p` holds a side that starts at `p`, and
/// the next place, cyclically, holds the side that comes next around `p`.
pub open spec fn place_glued(faces: Seq<Face>, w: Gluing, p: int, i: int) -> bool {
    let r = w.ring[p];
    let s = r[i];
    &&& 0 <= s < 3 * faces.len()
    &&& tail(faces, s) == p
    &&& w.pos[s] == i
    &&& w.opp[before(s)] == r[if i + 1 == r.len() { 0 } else { i + 1 }]
}

/// The two ends of side `s`.
pub open spec fn ends_of(faces: Seq<Face>, s: int) -> (IndexType, IndexType) {
    (tail(faces, s), head(faces, s))
}

/// The triangles `faces` over `count` points are glued along their sides
/// into a closed manifold surface without loops or repeated edges, in which
/// the two triangles at an edge never share their third corner.
pub open spec fn glued(count: int, faces: Seq<Face>, w: Gluing) -> bool {
    let n = 3 * faces.len();
    &&& n <= u32::MAX
    &&& w.opp.len() == n
    &&& w.pos.len() == n
    &&& w.ring.len() == count
    &&& forall|s: int| 0 <= s < n ==> #[trigger] side_glued(count, faces, w, s)
    &&& forall|s1: int, s2: int|
        0 <= s1 < n && 0 <= s2 < n && #[trigger] ends_of(faces, s1) == #[trigger] ends_of(faces, s2) ==> s1 == s2
    &&& forall|p: int, i: int| 0 <= p < count && 0 <= i < w.ring[p].len() ==> #[trigger] place_glued(faces, w, p, i)
}

/// The triangles `faces` over `count` points form a closed manifold surface
/// without loops or repeated edges, in which the two triangles at an edge
/// never share their third corner.
pub open spec fn closed_manifold(count: int, faces: Seq<Face>) -> bool {
    exists|w: Gluing| glued(count, faces, w)
}

/// Triangles that form a closed manifold surface name only points that
/// are there, and have no more sides than can be numbered.
pub proof fn lemma_closed_manifold_fits(count: int, faces: Seq<Face>)
    requires
        closed_manifold(count, faces),
    ensures
        3 * faces.len() <= u32::MAX,
        forall|i: int, c: int| 0 <= i < faces.len() && 0 <= c < 3 ==> (#[trigger] faces[i][c] as int) < count,
{
    let w = choose|w: Gluing| glued(count, faces, w);
    assert forall|i: int, c: int| 0 <= i < faces.len() && 0 <= c < 3 implies (#[trigger] faces[i][c] as int) < count by {
        assert(side_glued(count, faces, w, 3 * i + c));
    }
}

/// The number of sides below `k` that come before the side running the
/// other way.
pub open spec fn lower_count(opp: Seq<int>, k: nat) -> nat
    decreases k,
{
    if k == 0 {
        0
    } else {
        lower_count(opp, (k - 1) as nat) + if k - 1 < opp[k - 1] { 1nat } else { 0nat }
    }
}

/// The number of sides below `k` that come after the side running the other
/// way.
pub open spec fn upper_count(opp: Seq<int>, k: nat) -> nat
    decreases k,
{
    if k == 0 {
        0
    } else {
        upper_count(opp, (k - 1) as nat) + if opp[k - 1] < k - 1 { 1nat } else { 0nat }
    }
}

/// The number of sides below `j` that come before the side running the
/// other way, which lies below `k` too.
pub open spec fn paired_count(opp: Seq<int>, k: int, j: nat) -> nat
    decreases j,
{
    if j == 0 {
        0
    } else {
        paired_count(opp, k, (j - 1) as nat) + if j - 1 < opp[j - 1] && opp[j - 1] < k { 1nat } else { 0nat }
    }
}

/// `opp` pairs the numbers below `n` up.
pub open spec fn pairs_up(opp: Seq<int>, n: int) -> bool {
    &&& opp.len() == n
    &&& forall|s: int| 0 <= s < n ==> 0 <= #[trigger] opp[s] < n && opp[s] != s && opp[opp[s]] == s
}

/// Counting pairs below `k + 1` adds the pair of `k`, if its lower side is
/// below `j`.
proof fn lemma_paired_step(opp: Seq<int>, n: int, k: int, j: nat)
    requires
        pairs_up(opp, n),
        0 <= j <= k < n,
    ensures
        paired_count(opp, k + 1, j) == paired_count(opp, k, j) + if opp[k] < j { 1nat } else { 0nat },
    decreases j,
{
    if j > 0 {
        lemma_paired_step(opp, n, k, (j - 1) as nat);
        assert(opp[opp[j - 1]] == j - 1);
        assert(opp[opp[k]] == k);
    }
}

/// There are as many pairs below `k` as sides below `k` that come after
/// their partner.
proof fn lemma_paired_is_upper(opp: Seq<int>, n: int, k: nat)
    requires
        pairs_up(opp, n),
        k <= n,
    ensures
        paired_count(opp, k as int, k) == upper_count(opp, k),
    decreases k,
{
    if k > 0 {
        lemma_paired_is_upper(opp, n, (k - 1) as nat);
        lemma_paired_step(opp, n, k - 1, (k - 1) as nat);
    }
}

/// When every partner lies below `n`, every side that comes before its
/// partner counts as a pair.
proof fn lemma_paired_is_lower(opp: Seq<int>, n: int, j: nat)
    requires
        pairs_up(opp, n),
        j <= n,
    ensures
        paired_count(opp, n, j) == lower_count(opp, j),
    decreases j,
{
    if j > 0 {
        lemma_paired_is_lower(opp, n, (j - 1) as nat);
    }
}

/// Every side comes before or after its partner.
proof fn lemma_lower_upper(opp: Seq<int>, n: int, k: nat)
    requires
        pairs_up(opp, n),
        k <= n,
    ensures
        lower_count(opp, k) + upper_count(opp, k) == k,
    decreases k,
{
    if k > 0 {
        lemma_lower_upper(opp, n, (k - 1) as nat);
    }
}

/// Of numbers that are paired up, half come before their partner.
pub proof fn lemma_half_lower(opp: Seq<int>, n: nat)
    requires
        pairs_up(opp, n as int),
    ensures
        2 * lower_count(opp, n) == n,
{
    lemma_paired_is_upper(opp, n as int, n);
    lemma_paired_is_lower(opp, n as int, n);
    lemma_lower_upper(opp, n as int, n);
}

/// In a gluing the sides are paired up.
pub proof fn lemma_glued_pairs(count: int, faces: Seq<Face>, w: Gluing)
    requires
        glued(count, faces, w),
    ensures
        pairs_up(w.opp, 3 * faces.len() as int),
{
    let n = 3 * faces.len();
    assert forall|s: int| 0 <= s < n implies 0 <= #[trigger] w.opp[s] < n && w.opp[s] != s && w.opp[w.opp[s]] == s by {
        assert(side_glued(count, faces, w, s));
        let o = w.opp[s];
        assert(side_glued(count, faces, w, o));
        assert(ends_of(faces, w.opp[o]) == ends_of(faces, s));
    }
}

} // verus!
