//! Triangles that are glued into a closed manifold surface give a
//! well-formed store.
use vstd::prelude::*;
use super::construct::built;
use super::construct::pair_key;
use super::construct::Draft;
use super::construct::Face;
use super::gluing::after;
use super::gluing::ends_of;
use super::gluing::glued;
use super::gluing::head;
use super::gluing::before;
use super::gluing::lemma_glued_pairs;
use super::gluing::lemma_half_lower;
use super::gluing::lemma_sides;
use super::gluing::lower_count;
use super::gluing::place_glued;
use super::gluing::side_glued;
use super::gluing::tail;
use super::gluing::Gluing;
use super::model::EdgeRef;
use super::model::FaceRef;
use super::model::IndexType;
use super::slots::lemma_count_all_live;
use super::model::MeshModel;
use super::model::Rings;
use super::sides::lemma_draft_sides;
use super::sides::partial;

verus! {
/// The lower of side `s` and the side that runs the other way.
pub open spec fn lower_side(w: Gluing, s: int) -> int {
    if s < w.opp[s] {
        s
    } else {
        w.opp[s]
    }
}

/// Half-edge `s` of a draft of `k` sides is what side `s` should give.
pub open spec fn side_shaped<P>(d: Draft<P>, faces: Seq<Face>, w: Gluing, k: int, s: int) -> bool {
    let r = d.mesh.half_edges[s];
    let o = w.opp[s];
    let key = pair_key(head(faces, s), tail(faces, s));
    &&& r.next_idx == after(s)
    &&& r.face_idx == s / 3
    &&& d.ids.contains_key(tail(faces, s))
    &&& r.vertex_idx == d.ids[tail(faces, s)]
    &&& r.twin_idx == (if o < k { Some(o as IndexType) } else { None })
    &&& (r.edge_idx as int) < d.mesh.edges.len()
    &&& d.mesh.edges[r.edge_idx as int] == Some(EdgeRef { half_edge_idx: lower_side(w, s) as IndexType })
    &&& s < o ==> d.waiting.contains_key(key) && d.waiting[key] == s
}

/// Vertex `v` of a draft of `k` sides stands for the point `point_of[v]`.
pub open spec fn vertex_shaped<P>(
    d: Draft<P>,
    points: Seq<P>,
    faces: Seq<Face>,
    point_of: Seq<IndexType>,
    k: int,
    v: int,
) -> bool {
    let p = point_of[v];
    &&& d.ids.contains_key(p)
    &&& d.ids[p] == v
    &&& d.mesh.vertices[v] is Some
    &&& d.mesh.vertices[v].unwrap().vertex == points[p as int]
    &&& (d.mesh.vertices[v].unwrap().half_edge_idx as int) < k
    &&& tail(faces, d.mesh.vertices[v].unwrap().half_edge_idx as int) == p
}

/// Edge `e` of a draft of `k` sides has for representative the lower of
/// its two sides.
pub open spec fn edge_shaped<P>(d: Draft<P>, w: Gluing, k: int, e: int) -> bool {
    &&& d.mesh.edges[e] is Some
    &&& (d.mesh.edges[e].unwrap().half_edge_idx as int) < k
    &&& (d.mesh.edges[e].unwrap().half_edge_idx as int) < w.opp[d.mesh.edges[e].unwrap().half_edge_idx as int]
    &&& d.mesh.half_edges[d.mesh.edges[e].unwrap().half_edge_idx as int].edge_idx == e
}

/// A draft of `k` sides is what the first `k` sides of glued triangles
/// should give.
pub open spec fn shaped<P>(
    d: Draft<P>,
    points: Seq<P>,
    faces: Seq<Face>,
    w: Gluing,
    point_of: Seq<IndexType>,
    k: int,
) -> bool {
    &&& d.mesh.half_edges.len() == k
    &&& d.mesh.faces.len() == k / 3
    &&& forall|i: int| 0 <= i < k / 3 ==> #[trigger] d.mesh.faces[i] == Some(FaceRef { half_edge_idx: (3 * i) as IndexType })
    &&& d.mesh.vertices.len() == point_of.len()
    &&& point_of.len() <= k
    &&& d.mesh.edges.len() == lower_count(w.opp, k as nat)
    &&& d.mesh.edges.len() <= k
    &&& forall|s: int| 0 <= s < k ==> #[trigger] side_shaped(d, faces, w, k, s)
    &&& forall|v: int| 0 <= v < point_of.len() ==> #[trigger] vertex_shaped(d, points, faces, point_of, k, v)
    &&& forall|e: int| 0 <= e < d.mesh.edges.len() ==> #[trigger] edge_shaped(d, w, k, e)
    &&& forall|p: IndexType| #[trigger]
        d.ids.contains_key(p) ==> (d.ids[p] as int) < point_of.len() && point_of[d.ids[p] as int] == p
    &&& forall|key: u64| #[trigger]
        d.waiting.contains_key(key) ==> {
            let s = d.waiting[key] as int;
            0 <= s < k && s < w.opp[s] && key == pair_key(head(faces, s), tail(faces, s))
        }
}

/// Different pairs of points have different keys.
pub proof fn lemma_pair_key(a: IndexType, b: IndexType, c: IndexType, d: IndexType)
    ensures
        pair_key(a, b) == pair_key(c, d) ==> a == c && b == d,
{
}

/// The first `k + 1` sides of glued triangles give what they should, if
/// the first `k` do.
pub proof fn lemma_shaped_step<P>(
    d: Draft<P>,
    points: Seq<P>,
    faces: Seq<Face>,
    w: Gluing,
    point_of: Seq<IndexType>,
    k: int,
) -> (next_point_of: Seq<IndexType>)
    requires
        glued(points.len() as int, faces, w),
        0 <= k < 3 * faces.len(),
        shaped(d, points, faces, w, point_of, k),
    ensures
        shaped(
            d.add_side(points, tail(faces, k), head(faces, k), after(k) as IndexType, (k / 3) as IndexType),
            points,
            faces,
            w,
            next_point_of,
            k + 1,
        ) || (k + 1) % 3 == 0,
        (k + 1) % 3 == 0 ==> shaped(
            Draft {
                mesh: MeshModel {
                    faces: d.add_side(
                        points,
                        tail(faces, k),
                        head(faces, k),
                        after(k) as IndexType,
                        (k / 3) as IndexType,
                    ).mesh.faces.push(Some(FaceRef { half_edge_idx: (k - 2) as IndexType })),
                    ..d.add_side(
                        points,
                        tail(faces, k),
                        head(faces, k),
                        after(k) as IndexType,
                        (k / 3) as IndexType,
                    ).mesh
                },
                ..d.add_side(points, tail(faces, k), head(faces, k), after(k) as IndexType, (k / 3) as IndexType)
            },
            points,
            faces,
            w,
            next_point_of,
            k + 1,
        ),
{
    let count = points.len() as int;
    let a = tail(faces, k);
    let b = head(faces, k);
    let o = w.opp[k];
    let d1 = d.add_side(points, a, b, after(k) as IndexType, (k / 3) as IndexType);
    let d2 = if (k + 1) % 3 == 0 {
        Draft {
            mesh: MeshModel { faces: d1.mesh.faces.push(Some(FaceRef { half_edge_idx: (k - 2) as IndexType })), ..d1.mesh },
            ..d1
        }
    } else {
        d1
    };
    let known = d.ids.contains_key(a);
    let next_point_of = if known { point_of } else { point_of.push(a) };
    let found = d.waiting.contains_key(pair_key(a, b));
    assert(side_glued(count, faces, w, k));
    assert(side_glued(count, faces, w, o));
    assert(ends_of(faces, w.opp[o]) == ends_of(faces, k));
    assert(w.opp[o] == k);
    // a side waits for this one exactly if the side running the other way
    // has come already
    assert(found == (o < k)) by {
        if found {
            let t = d.waiting[pair_key(a, b)] as int;
            lemma_pair_key(head(faces, t), tail(faces, t), a, b);
            assert(ends_of(faces, t) == ends_of(faces, o));
        }
        if o < k {
            assert(side_shaped(d, faces, w, k, o));
        }
    }
    if found {
        assert(d.waiting[pair_key(a, b)] == o) by {
            let t = d.waiting[pair_key(a, b)] as int;
            lemma_pair_key(head(faces, t), tail(faces, t), a, b);
            assert(ends_of(faces, t) == ends_of(faces, o));
        }
        assert(side_shaped(d, faces, w, k, o));
    }
    assert forall|s: int| 0 <= s < k + 1 implies #[trigger] side_shaped(d2, faces, w, k + 1, s) by {
        if s < k {
            assert(side_shaped(d, faces, w, k, s));
            assert(side_glued(count, faces, w, s));
            if w.opp[s] == k {
                assert(side_glued(count, faces, w, w.opp[s]));
                assert(ends_of(faces, s) == ends_of(faces, o));
            }
            if s < w.opp[s] {
                lemma_pair_key(head(faces, s), tail(faces, s), b, a);
                if pair_key(head(faces, s), tail(faces, s)) == pair_key(b, a) {
                    assert(ends_of(faces, s) == ends_of(faces, k));
                }
            }
        }
    }
    assert forall|v: int| 0 <= v < next_point_of.len() implies #[trigger] vertex_shaped(
        d2,
        points,
        faces,
        next_point_of,
        k + 1,
        v,
    ) by {
        if v < point_of.len() {
            assert(vertex_shaped(d, points, faces, point_of, k, v));
        }
    }
    assert forall|e: int| 0 <= e < d2.mesh.edges.len() implies #[trigger] edge_shaped(d2, w, k + 1, e) by {
        if e < d.mesh.edges.len() {
            assert(edge_shaped(d, w, k, e));
        }
    }
    assert forall|p: IndexType| #[trigger] d2.ids.contains_key(p) implies (d2.ids[p] as int) < next_point_of.len()
        && next_point_of[d2.ids[p] as int] == p by {
        if d.ids.contains_key(p) {
            assert((d.ids[p] as int) < point_of.len());
        }
    }
    assert forall|key: u64| #[trigger] d2.waiting.contains_key(key) implies {
        let s = d2.waiting[key] as int;
        0 <= s < k + 1 && s < w.opp[s] && key == pair_key(head(faces, s), tail(faces, s))
    } by {
        if d.waiting.contains_key(key) {
            let s = d.waiting[key] as int;
            assert(0 <= s < k);
        }
    }
    assert forall|i: int| 0 <= i < (k + 1) / 3 implies #[trigger] d2.mesh.faces[i] == Some(
        FaceRef { half_edge_idx: (3 * i) as IndexType },
    ) by {
        if i < k / 3 {
            assert(d.mesh.faces[i] == Some(FaceRef { half_edge_idx: (3 * i) as IndexType }));
        }
    }
    next_point_of
}

/// The first `k` sides of glued triangles give what they should.
pub proof fn lemma_partial_shaped<P>(points: Seq<P>, faces: Seq<Face>, w: Gluing, k: nat) -> (point_of: Seq<IndexType>)
    requires
        glued(points.len() as int, faces, w),
        k <= 3 * faces.len(),
    ensures
        shaped(partial(points, faces, k), points, faces, w, point_of, k as int),
    decreases k,
{
    if k == 0 {
        Seq::empty()
    } else {
        let before = lemma_partial_shaped(points, faces, w, (k - 1) as nat);
        lemma_shaped_step(partial(points, faces, (k - 1) as nat), points, faces, w, before, k - 1)
    }
}

/// What glued triangles give has its pointers right.
pub proof fn lemma_shaped_links<P>(d: Draft<P>, points: Seq<P>, faces: Seq<Face>, w: Gluing, point_of: Seq<IndexType>)
    requires
        glued(points.len() as int, faces, w),
        shaped(d, points, faces, w, point_of, 3 * faces.len() as int),
    ensures
        d.mesh.links_ok(),
{
    let n = 3 * faces.len() as int;
    let m = d.mesh;
    assert forall|s: int| 0 <= s < n implies #[trigger] m.face_of(s) < m.faces.len() by {
        assert(side_shaped(d, faces, w, n, s));
    }
    assert forall|s: int| m.live(s) implies #[trigger] m.dart_ok(s) by {
        lemma_dart(d, points, faces, w, point_of, s);
    }
    assert forall|v: int| m.live_vertex(v) implies #[trigger] m.vertex_ok(v) by {
        assert(vertex_shaped(d, points, faces, point_of, n, v));
        let r = m.vertex_rep(v);
        lemma_arc(d, points, faces, w, point_of, r);
    }
    assert forall|e: int| m.live_edge(e) implies #[trigger] m.edge_ok(e) by {
        assert(edge_shaped(d, w, n, e));
        let r = m.edge_rep(e);
        lemma_arc(d, points, faces, w, point_of, r);
    }
    assert forall|f: int| m.live_face(f) implies #[trigger] m.face_ok(f) by {
        assert(m.faces[f] == Some(FaceRef { half_edge_idx: (3 * f) as IndexType }));
        lemma_arc(d, points, faces, w, point_of, 3 * f);
    }
}

/// What glued triangles give has no two half-edges between the same
/// vertices, and its half-edges lie in rings around the vertices.
pub proof fn lemma_shaped_rings<P>(d: Draft<P>, points: Seq<P>, faces: Seq<Face>, w: Gluing, point_of: Seq<IndexType>)
    requires
        glued(points.len() as int, faces, w),
        shaped(d, points, faces, w, point_of, 3 * faces.len() as int),
    ensures
        d.mesh.arcs_distinct(),
        exists|g: Rings| d.mesh.rings_ok(g),
{
    let count = points.len() as int;
    let n = 3 * faces.len() as int;
    let m = d.mesh;
    assert forall|s1: int, s2: int|
        m.live(s1) && m.live(s2) && #[trigger] m.arc(s1) == #[trigger] m.arc(s2) implies s1 == s2 by {
        lemma_arc(d, points, faces, w, point_of, s1);
        lemma_arc(d, points, faces, w, point_of, s2);
        assert(ends_of(faces, s1) == ends_of(faces, s2));
    }
    let g = Rings { pos: w.pos, ring: Seq::new(point_of.len(), |v: int| w.ring[point_of[v] as int]) };
    assert forall|s: int| m.live(s) implies #[trigger] m.dart_in_ring(g, s) by {
        lemma_arc(d, points, faces, w, point_of, s);
        assert(side_glued(count, faces, w, s));
    }
    assert forall|v: int, i: int| m.live_vertex(v) && 0 <= i < g.ring[v].len() implies #[trigger] m.ring_slot_ok(
        g,
        v,
        i,
    ) by {
        assert(vertex_shaped(d, points, faces, point_of, n, v));
        let p = point_of[v] as int;
        let r = m.vertex_rep(v);
        assert(side_glued(count, faces, w, r));
        assert(place_glued(faces, w, p, i));
        let s = w.ring[p][i];
        lemma_sides(faces, s);
        lemma_arc(d, points, faces, w, point_of, s);
        lemma_arc(d, points, faces, w, point_of, before(s));
        assert(g.ring[v] == w.ring[p]);
        assert(m.origin(s) == v);
        assert(m.step(s) == w.opp[before(s)]);
    }
    assert(m.rings_ok(g));
}

/// Vertex `v` of surface `b` is live and lies at the point it stands for.
pub open spec fn vertex_placed<P>(b: MeshModel<P>, points: Seq<P>, point_of: Seq<IndexType>, v: int) -> bool {
    &&& b.live_vertex(v)
    &&& (point_of[v] as int) < points.len()
    &&& b.position(v) == points[point_of[v] as int]
}

/// Face `f` of surface `b` is live, and its corners stand for the corners
/// of triangle `f`, in order.
pub open spec fn face_placed<P>(b: MeshModel<P>, faces: Seq<Face>, point_of: Seq<IndexType>, f: int) -> bool {
    let (x, y, z) = b.face_vertices(f);
    &&& b.live_face(f)
    &&& 0 <= x < point_of.len() && point_of[x] == faces[f][0]
    &&& 0 <= y < point_of.len() && point_of[y] == faces[f][1]
    &&& 0 <= z < point_of.len() && point_of[z] == faces[f][2]
}

/// Vertex `v` of what glued triangles give lies at the point it stands
/// for.
pub proof fn lemma_shaped_point<P>(
    d: Draft<P>,
    points: Seq<P>,
    faces: Seq<Face>,
    w: Gluing,
    point_of: Seq<IndexType>,
    v: int,
)
    requires
        glued(points.len() as int, faces, w),
        shaped(d, points, faces, w, point_of, 3 * faces.len() as int),
        0 <= v < point_of.len(),
    ensures
        d.mesh.live_vertex(v),
        (point_of[v] as int) < points.len(),
        d.mesh.position(v) == points[point_of[v] as int],
{
    assert(vertex_shaped(d, points, faces, point_of, 3 * faces.len() as int, v));
    assert(side_glued(points.len() as int, faces, w, d.mesh.vertex_rep(v)));
}

/// Glued triangles give a well-formed surface.  Its faces are the triangles
/// in their order, with the corners in their order; every vertex lies at the
/// point it stands for.
pub proof fn lemma_glued_built<P>(points: Seq<P>, faces: Seq<Face>, w: Gluing) -> (point_of: Seq<IndexType>)
    requires
        glued(points.len() as int, faces, w),
    ensures
        built(points, faces).wf(),
        shaped(Draft::of(points, faces), points, faces, w, point_of, 3 * faces.len() as int),
        built(points, faces).faces.len() == faces.len(),
        built(points, faces).num_faces() == faces.len(),
        built(points, faces).vertices.len() == point_of.len(),
        built(points, faces).num_vertices() == point_of.len(),
        forall|v: int| 0 <= v < point_of.len() ==> #[trigger] vertex_placed(built(points, faces), points, point_of, v),
        forall|f: int| 0 <= f < faces.len() ==> #[trigger] face_placed(built(points, faces), faces, point_of, f),
{
    let count = points.len() as int;
    let n = 3 * faces.len();
    let point_of = lemma_partial_shaped(points, faces, w, n);
    lemma_draft_sides(points, faces, faces.len());
    assert(faces.take(faces.len() as int) =~= faces);
    let d = Draft::of(points, faces);
    let m = d.mesh;
    lemma_glued_pairs(count, faces, w);
    lemma_half_lower(w.opp, n);
    assert forall|i: int| 0 <= i < m.faces.len() implies (#[trigger] m.faces[i]) is Some by {}
    assert forall|i: int| 0 <= i < m.vertices.len() implies (#[trigger] m.vertices[i]) is Some by {
        assert(vertex_shaped(d, points, faces, point_of, n as int, i));
    }
    assert forall|i: int| 0 <= i < m.edges.len() implies (#[trigger] m.edges[i]) is Some by {
        assert(edge_shaped(d, w, n as int, i));
    }
    lemma_count_all_live(m.faces);
    lemma_count_all_live(m.vertices);
    lemma_count_all_live(m.edges);
    lemma_shaped_links(d, points, faces, w, point_of);
    lemma_shaped_rings(d, points, faces, w, point_of);
    assert(built(points, faces) == m);
    assert forall|v: int| 0 <= v < point_of.len() implies #[trigger] vertex_placed(m, points, point_of, v) by {
        lemma_shaped_point(d, points, faces, w, point_of, v);
    }
    assert forall|f: int| 0 <= f < faces.len() implies #[trigger] face_placed(m, faces, point_of, f) by {
        assert(m.faces[f] == Some(FaceRef { half_edge_idx: (3 * f) as IndexType }));
        lemma_arc(d, points, faces, w, point_of, 3 * f);
        lemma_arc(d, points, faces, w, point_of, 3 * f + 1);
        lemma_arc(d, points, faces, w, point_of, 3 * f + 2);
    }
    point_of
}

/// The half-edge that side `s` gave starts at the vertex of its tail and
/// ends at the vertex of its head.
pub proof fn lemma_arc<P>(d: Draft<P>, points: Seq<P>, faces: Seq<Face>, w: Gluing, point_of: Seq<IndexType>, s: int)
    requires
        glued(points.len() as int, faces, w),
        shaped(d, points, faces, w, point_of, 3 * faces.len() as int),
        0 <= s < 3 * faces.len(),
    ensures
        d.mesh.live(s),
        d.mesh.next(s) == after(s),
        d.mesh.prev(s) == before(s),
        d.mesh.twin(s) == w.opp[s],
        d.mesh.half_edges[s].twin_idx is Some,
        d.mesh.face_of(s) == s / 3,
        d.ids.contains_key(tail(faces, s)),
        d.mesh.origin(s) == d.ids[tail(faces, s)],
        d.mesh.dest(s) == d.ids[head(faces, s)],
        0 <= d.mesh.origin(s) < point_of.len(),
        point_of[d.mesh.origin(s)] == tail(faces, s),
        0 <= d.mesh.dest(s) < point_of.len(),
        point_of[d.mesh.dest(s)] == head(faces, s),
        0 <= d.mesh.apex(s) < point_of.len(),
        point_of[d.mesh.apex(s)] == tail(faces, before(s)),
{
    let n = 3 * faces.len() as int;
    lemma_sides(faces, s);
    lemma_sides(faces, after(s));
    assert(side_shaped(d, faces, w, n, s));
    assert(side_shaped(d, faces, w, n, after(s)));
    assert(side_shaped(d, faces, w, n, before(s)));
    assert(side_glued(points.len() as int, faces, w, s));
    assert(d.mesh.faces[s / 3] == Some(FaceRef { half_edge_idx: (3 * (s / 3)) as IndexType }));
}

/// The half-edge that side `s` gave is linked as it should be.
pub proof fn lemma_dart<P>(d: Draft<P>, points: Seq<P>, faces: Seq<Face>, w: Gluing, point_of: Seq<IndexType>, s: int)
    requires
        glued(points.len() as int, faces, w),
        shaped(d, points, faces, w, point_of, 3 * faces.len() as int),
        d.mesh.live(s),
    ensures
        d.mesh.dart_ok(s),
{
    let count = points.len() as int;
    let n = 3 * faces.len() as int;
    let m = d.mesh;
    let o = w.opp[s];
    lemma_glued_pairs(count, faces, w);
    lemma_sides(faces, s);
    lemma_sides(faces, o);
    lemma_arc(d, points, faces, w, point_of, s);
    lemma_arc(d, points, faces, w, point_of, o);
    lemma_arc(d, points, faces, w, point_of, after(s));
    lemma_arc(d, points, faces, w, point_of, before(s));
    lemma_arc(d, points, faces, w, point_of, before(o));
    lemma_arc(d, points, faces, w, point_of, after(o));
    assert(side_shaped(d, faces, w, n, s));
    assert(side_shaped(d, faces, w, n, o));
    assert(side_glued(count, faces, w, s));
    assert(side_glued(count, faces, w, o));
    assert(m.faces[s / 3] == Some(FaceRef { half_edge_idx: (3 * (s / 3)) as IndexType }));
    let e1 = m.edge_of(s);
    let e2 = m.edge_of(o);
    assert(edge_shaped(d, w, n, e1));
    assert(edge_shaped(d, w, n, e2));
    assert(vertex_shaped(d, points, faces, point_of, n, m.origin(s)));
}

} // verus!
