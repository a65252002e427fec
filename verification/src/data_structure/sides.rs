//! The construction of a store, side by side.
use vstd::prelude::*;
use super::construct::Draft;
use super::construct::Face;
use super::gluing::after;
use super::gluing::head;
use super::gluing::tail;
use super::model::FaceRef;
use super::model::IndexType;
use super::model::MeshModel;

verus! {
/// The draft after the first `k` sides of `faces` are added, each triangle
/// getting its face when its third side is in.
pub open spec fn partial<P>(points: Seq<P>, faces: Seq<Face>, k: nat) -> Draft<P>
    decreases k,
{
    if k == 0 {
        Draft::empty()
    } else {
        let s = k - 1;
        let d = partial(points, faces, (k - 1) as nat).add_side(
            points,
            tail(faces, s),
            head(faces, s),
            after(s) as IndexType,
            (s / 3) as IndexType,
        );
        if k % 3 == 0 {
            Draft {
                mesh: MeshModel {
                    faces: d.mesh.faces.push(Some(FaceRef { half_edge_idx: (s - 2) as IndexType })),
                    ..d.mesh
                },
                ..d
            }
        } else {
            d
        }
    }
}

/// Half-edge `s` of a draft lies in its triangle as side `s` does, and
/// starts at the vertex of its tail.
pub open spec fn side_placed<P>(d: Draft<P>, faces: Seq<Face>, s: int) -> bool {
    let r = d.mesh.half_edges[s];
    &&& r.next_idx == after(s)
    &&& r.face_idx == s / 3
    &&& d.ids.contains_key(tail(faces, s))
    &&& r.vertex_idx == d.ids[tail(faces, s)]
}

/// A draft of `k` sides has a half-edge for each side, a face for each full
/// triangle, and a vertex for each point that was met.
pub open spec fn placed<P>(d: Draft<P>, points: Seq<P>, faces: Seq<Face>, point_of: Seq<IndexType>, k: int) -> bool {
    &&& d.mesh.half_edges.len() == k
    &&& d.mesh.faces.len() == k / 3
    &&& forall|i: int| 0 <= i < k / 3 ==> #[trigger] d.mesh.faces[i] == Some(FaceRef { half_edge_idx: (3 * i) as IndexType })
    &&& d.mesh.vertices.len() == point_of.len()
    &&& point_of.len() <= k
    &&& forall|s: int| 0 <= s < k ==> #[trigger] side_placed(d, faces, s)
    &&& forall|v: int|
        0 <= v < point_of.len() ==> d.ids.contains_key(#[trigger] point_of[v]) && d.ids[point_of[v]] == v
    &&& forall|p: IndexType| #[trigger]
        d.ids.contains_key(p) ==> (d.ids[p] as int) < point_of.len() && point_of[d.ids[p] as int] == p
    &&& forall|key: u64| #[trigger] d.waiting.contains_key(key) ==> (d.waiting[key] as int) < k
}

/// The first `k` sides of any triangles give a draft with everything in its
/// place.
pub proof fn lemma_partial_placed<P>(points: Seq<P>, faces: Seq<Face>, k: nat) -> (point_of: Seq<IndexType>)
    requires
        3 * faces.len() <= u32::MAX,
        k <= 3 * faces.len(),
    ensures
        placed(partial(points, faces, k), points, faces, point_of, k as int),
    decreases k,
{
    if k == 0 {
        Seq::empty()
    } else {
        let s = k - 1;
        let before = lemma_partial_placed(points, faces, (k - 1) as nat);
        let d = partial(points, faces, (k - 1) as nat);
        let a = tail(faces, s);
        let d2 = partial(points, faces, k);
        let known = d.ids.contains_key(a);
        let point_of = if known { before } else { before.push(a) };
        assert forall|t: int| 0 <= t < k implies #[trigger] side_placed(d2, faces, t) by {
            if t < s {
                assert(side_placed(d, faces, t));
            }
        }
        assert forall|v: int| 0 <= v < point_of.len() implies d2.ids.contains_key(#[trigger] point_of[v])
            && d2.ids[point_of[v]] == v by {
            if v < before.len() {
                assert(d.ids.contains_key(before[v]));
            }
        }
        assert forall|p: IndexType| #[trigger] d2.ids.contains_key(p) implies (d2.ids[p] as int) < point_of.len()
            && point_of[d2.ids[p] as int] == p by {
            if d.ids.contains_key(p) {
                assert((d.ids[p] as int) < before.len());
            }
        }
        assert forall|key: u64| #[trigger] d2.waiting.contains_key(key) implies (d2.waiting[key] as int) < k by {
            if d.waiting.contains_key(key) {
                assert((d.waiting[key] as int) < s);
            }
        }
        assert forall|i: int| 0 <= i < (k as int) / 3 implies #[trigger] d2.mesh.faces[i] == Some(
            FaceRef { half_edge_idx: (3 * i) as IndexType },
        ) by {
            if i < s / 3 {
                assert(d.mesh.faces[i] == Some(FaceRef { half_edge_idx: (3 * i) as IndexType }));
            }
        }
        point_of
    }
}

/// Adding triangles one by one is adding their sides one by one.
pub proof fn lemma_draft_sides<P>(points: Seq<P>, faces: Seq<Face>, i: nat)
    requires
        3 * faces.len() <= u32::MAX,
        i <= faces.len(),
    ensures
        Draft::of(points, faces.take(i as int)) == partial(points, faces, 3 * i),
    decreases i,
{
    if i > 0 {
        lemma_draft_sides(points, faces, (i - 1) as nat);
        lemma_partial_placed(points, faces, (3 * (i - 1)) as nat);
        lemma_partial_placed(points, faces, (3 * (i - 1) + 1) as nat);
        lemma_partial_placed(points, faces, (3 * (i - 1) + 2) as nat);
        assert(faces.take(i as int).drop_last() =~= faces.take(i - 1));
        assert(faces.take(i as int).last() == faces[i - 1]);
        let d0 = partial(points, faces, (3 * (i - 1)) as nat);
        let d1 = partial(points, faces, (3 * (i - 1) + 1) as nat);
        let d2 = partial(points, faces, (3 * (i - 1) + 2) as nat);
        let d3 = partial(points, faces, 3 * i);
        let face = faces[i - 1];
        let start = 3 * (i - 1);
        let f = (i - 1) as IndexType;
        assert(d1 == d0.add_side(points, face[0], face[1], (start + 1) as IndexType, f));
        assert(d2 == d1.add_side(points, face[1], face[2], (start + 2) as IndexType, f));
        assert(tail(faces, start + 2) == face[2] && head(faces, start + 2) == face[0]);
        let d2s = d2.add_side(points, face[2], face[0], start as IndexType, f);
        assert(d3.mesh.faces == d2s.mesh.faces.push(Some(FaceRef { half_edge_idx: start as IndexType })));
        assert(d3 == d0.add_face(points, face));
    } else {
        assert(faces.take(0) =~= Seq::<Face>::empty());
    }
}

/// Every vertex slot of a draft is occupied.
pub proof fn lemma_vertices_live<P>(d: Draft<P>, points: Seq<P>, faces: Seq<Face>, point_of: Seq<IndexType>, v: int)
    requires
        3 * faces.len() <= u32::MAX,
        d == Draft::of(points, faces),
        0 <= v < d.mesh.vertices.len(),
    ensures
        d.mesh.vertices[v] is Some,
{
    lemma_draft_sides(points, faces, faces.len());
    assert(faces.take(faces.len() as int) =~= faces);
    lemma_vertices_some(points, faces, 3 * faces.len(), v);
}

/// Every vertex slot of a draft of `k` sides is occupied.
proof fn lemma_vertices_some<P>(points: Seq<P>, faces: Seq<Face>, k: nat, v: int)
    requires
        3 * faces.len() <= u32::MAX,
        k <= 3 * faces.len(),
        0 <= v < partial(points, faces, k).mesh.vertices.len(),
    ensures
        partial(points, faces, k).mesh.vertices[v] is Some,
    decreases k,
{
    if k > 0 {
        let d = partial(points, faces, (k - 1) as nat);
        if v < d.mesh.vertices.len() {
            lemma_vertices_some(points, faces, (k - 1) as nat, v);
        }
    }
}

} // verus!
