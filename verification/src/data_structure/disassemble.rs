//! Triangles that give a well-formed store are glued into a closed
//! manifold surface.
use vstd::prelude::*;
use super::construct::built;
use super::construct::corners_in_range;
use super::construct::Draft;
use super::construct::Face;
use super::gluing::after;
use super::gluing::before;
use super::gluing::closed_manifold;
use super::gluing::ends_of;
use super::gluing::glued;
use super::gluing::head;
use super::gluing::lemma_sides;
use super::gluing::place_glued;
use super::gluing::side_glued;
use super::gluing::tail;
use super::gluing::Gluing;
use super::model::FaceRef;
use super::model::IndexType;
use super::model::Rings;
use super::sides::lemma_draft_sides;
use super::sides::lemma_partial_placed;
use super::sides::lemma_vertices_live;
use super::sides::placed;
use super::sides::side_placed;

verus! {
/// How the sides of the triangles are glued according to the half-edges
/// that they gave.
pub open spec fn gluing_of<P>(d: Draft<P>, count: int, g: Rings) -> Gluing {
    Gluing {
        opp: Seq::new(d.mesh.half_edges.len(), |s: int| d.mesh.twin(s)),
        pos: g.pos,
        ring: Seq::new(
            count as nat,
            |p: int|
                if p <= u32::MAX && d.ids.contains_key(p as IndexType) {
                    g.ring[d.ids[p as IndexType] as int]
                } else {
                    Seq::empty()
                },
        ),
    }
}

/// The half-edge that side `s` gave lies in its triangle as the side does,
/// and runs between the vertices of its ends.
pub proof fn lemma_placed_side<P>(d: Draft<P>, points: Seq<P>, faces: Seq<Face>, point_of: Seq<IndexType>, s: int)
    requires
        3 * faces.len() <= u32::MAX,
        corners_in_range(points.len() as int, faces),
        placed(d, points, faces, point_of, 3 * faces.len() as int),
        0 <= s < 3 * faces.len(),
    ensures
        d.mesh.live(s),
        d.mesh.next(s) == after(s),
        d.mesh.prev(s) == before(s),
        d.ids.contains_key(tail(faces, s)),
        d.ids.contains_key(head(faces, s)),
        d.mesh.origin(s) == d.ids[tail(faces, s)],
        d.mesh.dest(s) == d.ids[head(faces, s)],
        d.mesh.apex(s) == d.ids[tail(faces, before(s))],
        d.ids.contains_key(tail(faces, before(s))),
        (tail(faces, s) as int) < points.len(),
        0 <= d.mesh.origin(s) < point_of.len(),
        point_of[d.mesh.origin(s)] == tail(faces, s),
{
    lemma_sides(faces, s);
    lemma_sides(faces, after(s));
    assert(side_placed(d, faces, s));
    assert(side_placed(d, faces, after(s)));
    assert(side_placed(d, faces, before(s)));
    assert(d.mesh.faces[s / 3] == Some(FaceRef { half_edge_idx: (3 * (s / 3)) as IndexType }));
    assert((faces[s / 3][s % 3] as int) < points.len());
}

/// Different points have different vertices.
pub proof fn lemma_placed_points<P>(
    d: Draft<P>,
    points: Seq<P>,
    faces: Seq<Face>,
    point_of: Seq<IndexType>,
    p: IndexType,
    q: IndexType,
)
    requires
        placed(d, points, faces, point_of, 3 * faces.len() as int),
        d.ids.contains_key(p),
        d.ids.contains_key(q),
        d.ids[p] == d.ids[q],
    ensures
        p == q,
{
}

/// Each side is glued as its half-edge is linked.
proof fn lemma_built_side<P>(d: Draft<P>, points: Seq<P>, faces: Seq<Face>, point_of: Seq<IndexType>, g: Rings, s: int)
    requires
        3 * faces.len() <= u32::MAX,
        corners_in_range(points.len() as int, faces),
        placed(d, points, faces, point_of, 3 * faces.len() as int),
        d.mesh.links_ok(),
        d.mesh.rings_ok(g),
        0 <= s < 3 * faces.len(),
    ensures
        side_glued(points.len() as int, faces, gluing_of(d, points.len() as int, g), s),
{
    let m = d.mesh;
    lemma_placed_side(d, points, faces, point_of, s);
    m.lemma_around(s);
    let o = m.twin(s);
    lemma_placed_side(d, points, faces, point_of, o);
    m.lemma_around(o);
    lemma_placed_points(d, points, faces, point_of, tail(faces, o), head(faces, s));
    lemma_placed_points(d, points, faces, point_of, head(faces, o), tail(faces, s));
    if tail(faces, s) == head(faces, s) {
        assert(false);
    }
    if tail(faces, before(s)) == tail(faces, before(o)) {
        assert(false);
    }
    assert(m.dart_in_ring(g, s));
}

/// No two sides run between the same points.
proof fn lemma_built_ends<P>(d: Draft<P>, points: Seq<P>, faces: Seq<Face>, point_of: Seq<IndexType>, s1: int, s2: int)
    requires
        3 * faces.len() <= u32::MAX,
        corners_in_range(points.len() as int, faces),
        placed(d, points, faces, point_of, 3 * faces.len() as int),
        d.mesh.arcs_distinct(),
        0 <= s1 < 3 * faces.len(),
        0 <= s2 < 3 * faces.len(),
        ends_of(faces, s1) == ends_of(faces, s2),
    ensures
        s1 == s2,
{
    lemma_placed_side(d, points, faces, point_of, s1);
    lemma_placed_side(d, points, faces, point_of, s2);
    assert(d.mesh.arc(s1) == d.mesh.arc(s2));
}

/// Each place of the ring of a point is as it should be.
proof fn lemma_built_place<P>(
    d: Draft<P>,
    points: Seq<P>,
    faces: Seq<Face>,
    point_of: Seq<IndexType>,
    g: Rings,
    p: int,
    i: int,
)
    requires
        3 * faces.len() <= u32::MAX,
        corners_in_range(points.len() as int, faces),
        placed(d, points, faces, point_of, 3 * faces.len() as int),
        d == Draft::of(points, faces),
        d.mesh.links_ok(),
        d.mesh.rings_ok(g),
        0 <= p < points.len(),
        0 <= i < gluing_of(d, points.len() as int, g).ring[p].len(),
    ensures
        place_glued(faces, gluing_of(d, points.len() as int, g), p, i),
{
    let m = d.mesh;
    let v = d.ids[p as IndexType] as int;
    assert(d.ids.contains_key(p as IndexType));
    assert(point_of[v] == p as IndexType);
    lemma_vertices_live(d, points, faces, point_of, v);
    assert(m.ring_slot_ok(g, v, i));
    let s = g.ring[v][i];
    lemma_placed_side(d, points, faces, point_of, s);
    lemma_sides(faces, s);
    m.lemma_around(s);
    lemma_placed_side(d, points, faces, point_of, before(s));
}

/// Triangles that give a well-formed surface are glued along their sides
/// into a closed manifold surface.
pub proof fn lemma_built_closed<P>(points: Seq<P>, faces: Seq<Face>)
    requires
        3 * faces.len() <= u32::MAX,
        corners_in_range(points.len() as int, faces),
        built(points, faces).wf(),
    ensures
        closed_manifold(points.len() as int, faces),
{
    let count = points.len() as int;
    let n = 3 * faces.len();
    let point_of = lemma_partial_placed(points, faces, n);
    lemma_draft_sides(points, faces, faces.len());
    assert(faces.take(faces.len() as int) =~= faces);
    let d = Draft::of(points, faces);
    assert(d.mesh == built(points, faces));
    let g = d.mesh.rings();
    let w = gluing_of(d, count, g);
    assert forall|s: int| 0 <= s < n implies #[trigger] side_glued(count, faces, w, s) by {
        lemma_built_side(d, points, faces, point_of, g, s);
    }
    assert forall|s1: int, s2: int|
        0 <= s1 < n && 0 <= s2 < n && #[trigger] ends_of(faces, s1) == #[trigger] ends_of(faces, s2) implies s1 == s2 by {
        lemma_built_ends(d, points, faces, point_of, s1, s2);
    }
    assert forall|p: int, i: int| 0 <= p < count && 0 <= i < w.ring[p].len() implies #[trigger] place_glued(
        faces,
        w,
        p,
        i,
    ) by {
        lemma_built_place(d, points, faces, point_of, g, p, i);
    }
    assert(glued(count, faces, w));
}

} // verus!
