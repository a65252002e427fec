use mesh::HalfEdge;
use mesh::MeshError;

type Point = [f32; 3];

fn tetrahedron() -> HalfEdge<Point> {
    let points = vec![[0.0, 0.0, 0.0], [1.0, 0.0, 0.0], [0.0, 1.0, 0.0], [0.0, 0.0, 1.0]];
    let faces = vec![[0, 2, 1], [0, 1, 3], [0, 3, 2], [1, 2, 3]];
    HalfEdge::from_iters(points, faces).unwrap()
}

fn octahedron_data() -> (Vec<Point>, Vec<[u32; 3]>) {
    let points = vec![
        [1.0, 0.0, 0.0],
        [-1.0, 0.0, 0.0],
        [0.0, 1.0, 0.0],
        [0.0, -1.0, 0.0],
        [0.0, 0.0, 1.0],
        [0.0, 0.0, -1.0],
    ];
    let faces =
        vec![[0, 2, 4], [2, 1, 4], [1, 3, 4], [3, 0, 4], [2, 0, 5], [1, 2, 5], [3, 1, 5], [0, 3, 5]];
    (points, faces)
}

fn octahedron() -> HalfEdge<Point> {
    let (points, faces) = octahedron_data();
    HalfEdge::from_iters(points, faces).unwrap()
}

fn sorted(mut v: Vec<u32>) -> Vec<u32> {
    v.sort();
    v
}

fn pair(ends: [u32; 2]) -> (u32, u32) {
    if ends[0] <= ends[1] {
        (ends[0], ends[1])
    } else {
        (ends[1], ends[0])
    }
}

fn live_edges(mesh: &HalfEdge<Point>) -> Vec<u32> {
    let mut out = Vec::new();
    let mut cursor = mesh.initial_edge();
    while let Some(e) = cursor {
        out.push(e);
        cursor = mesh.next_edge(e);
    }
    out
}

fn edge_set(mesh: &HalfEdge<Point>) -> Vec<(u32, u32)> {
    let mut out: Vec<(u32, u32)> = live_edges(mesh).iter().map(|e| pair(mesh.get_endpoints(*e))).collect();
    out.sort();
    out
}

fn euler(mesh: &HalfEdge<Point>) -> i64 {
    mesh.num_vertices() as i64 - mesh.num_edges() as i64 + mesh.num_faces() as i64
}

#[test]
fn tetrahedron_counts() {
    let mesh = tetrahedron();
    assert_eq!(mesh.num_vertices(), 4);
    assert_eq!(mesh.num_edges(), 6);
    assert_eq!(mesh.num_faces(), 4);
    assert_eq!(mesh.max_idx_vertices(), 4);
    assert_eq!(mesh.max_idx_edges(), 6);
    assert_eq!(mesh.max_idx_faces(), 4);
    assert_eq!(mesh.max_idx_half_edges(), 12);
    assert_eq!(euler(&mesh), 2);
    assert!(mesh.check_all());
}

#[test]
fn vertices_are_numbered_by_first_reference() {
    // point 0 is named by no triangle; point 4 is named first
    let points: Vec<Point> =
        vec![[9.0, 9.0, 9.0], [1.0, 0.0, 0.0], [0.0, 1.0, 0.0], [0.0, 0.0, 1.0], [0.0, 0.0, 0.0]];
    let faces = vec![[4, 2, 1], [4, 1, 3], [4, 3, 2], [1, 2, 3]];
    let mesh = HalfEdge::from_iters(points, faces).unwrap();
    assert_eq!(mesh.num_vertices(), 4);
    assert_eq!(mesh.get_position(0), [0.0, 0.0, 0.0]);
    assert_eq!(mesh.get_position(1), [0.0, 1.0, 0.0]);
    assert_eq!(mesh.get_position(2), [1.0, 0.0, 0.0]);
    assert_eq!(mesh.get_position(3), [0.0, 0.0, 1.0]);
    assert_eq!(mesh.get_face_neighbors(0), [0, 1, 2]);
    assert_eq!(mesh.get_face_neighbors(3), [2, 1, 3]);
}

#[test]
fn edges_are_numbered_by_first_side() {
    let mesh = tetrahedron();
    // the points 0, 2, 1, 3 become the vertices 0, 1, 2, 3
    // face 0 is (0, 2, 1): its sides give the edges 0, 1, 2
    assert_eq!(mesh.get_endpoints(0), [0, 1]);
    assert_eq!(mesh.get_endpoints(1), [1, 2]);
    assert_eq!(mesh.get_endpoints(2), [2, 0]);
    // face 1 is (0, 1, 3): its first side lies on edge 2 already
    assert_eq!(mesh.get_endpoints(3), [2, 3]);
    assert_eq!(mesh.get_endpoints(4), [3, 0]);
    // face 2 is (0, 3, 2): only its second side is new
    assert_eq!(mesh.get_endpoints(5), [3, 1]);
}

#[test]
fn unoriented_tetrahedron_is_rejected() {
    let points: Vec<Point> = vec![[0.0, 0.0, 0.0], [1.0, 0.0, 0.0], [0.0, 1.0, 0.0], [0.0, 0.0, 1.0]];
    let faces = vec![[0, 1, 2], [0, 1, 3], [0, 2, 3], [1, 2, 3]];
    assert!(matches!(HalfEdge::from_iters(points, faces), Err(MeshError::NotClosedManifold)));
}

#[test]
fn surface_with_boundary_is_rejected() {
    let points: Vec<Point> = vec![[0.0, 0.0, 0.0], [1.0, 0.0, 0.0], [0.0, 1.0, 0.0]];
    assert!(matches!(HalfEdge::from_iters(points, vec![[0, 1, 2]]), Err(MeshError::NotClosedManifold)));
}

#[test]
fn two_faces_back_to_back_are_rejected() {
    let points: Vec<Point> = vec![[0.0, 0.0, 0.0], [1.0, 0.0, 0.0], [0.0, 1.0, 0.0]];
    let faces = vec![[0, 1, 2], [0, 2, 1]];
    assert!(matches!(HalfEdge::from_iters(points, faces), Err(MeshError::NotClosedManifold)));
}

#[test]
fn degenerate_triangle_is_rejected() {
    let points: Vec<Point> = vec![[0.0, 0.0, 0.0], [1.0, 0.0, 0.0], [0.0, 1.0, 0.0], [0.0, 0.0, 1.0]];
    let faces = vec![[0, 0, 1], [0, 1, 3], [0, 3, 2], [1, 2, 3]];
    assert!(matches!(HalfEdge::from_iters(points, faces), Err(MeshError::NotClosedManifold)));
}

#[test]
fn two_surfaces_touching_in_a_vertex_are_rejected() {
    // two tetrahedra that share vertex 0 only
    let points: Vec<Point> = vec![[0.0; 3]; 7];
    let faces = vec![
        [0, 2, 1],
        [0, 1, 3],
        [0, 3, 2],
        [1, 2, 3],
        [0, 5, 4],
        [0, 4, 6],
        [0, 6, 5],
        [4, 5, 6],
    ];
    assert!(matches!(HalfEdge::from_iters(points, faces), Err(MeshError::NotClosedManifold)));
}

#[test]
fn corner_out_of_range_is_rejected() {
    let points: Vec<Point> = vec![[0.0, 0.0, 0.0], [1.0, 0.0, 0.0], [0.0, 1.0, 0.0], [0.0, 0.0, 1.0]];
    let faces = vec![[0, 2, 1], [0, 1, 3], [0, 3, 2], [1, 2, 4]];
    assert!(matches!(HalfEdge::from_iters(points, faces), Err(MeshError::VertexOutOfRange)));
}

#[test]
fn empty_surface_is_well_formed() {
    let mesh = HalfEdge::<Point>::from_iters(Vec::new(), Vec::new()).unwrap();
    assert_eq!(mesh.num_vertices(), 0);
    assert_eq!(mesh.initial_vertex(), None);
    assert_eq!(mesh.initial_edge(), None);
    assert_eq!(mesh.initial_face(), None);
    let (points, faces) = mesh.to_vecs();
    assert!(points.is_empty());
    assert!(faces.is_empty());
}

#[test]
fn iteration_is_ascending() {
    let mesh = octahedron();
    assert_eq!(mesh.initial_vertex(), Some(0));
    assert_eq!(mesh.next_vertex(0), Some(1));
    assert_eq!(mesh.next_vertex(5), None);
    assert_eq!(mesh.next_vertex(u32::MAX), None);
    assert_eq!(live_edges(&mesh), (0..12).collect::<Vec<u32>>());
    assert_eq!(mesh.initial_face(), Some(0));
    assert_eq!(mesh.next_face(6), Some(7));
    assert_eq!(mesh.next_face(7), None);
    assert_eq!(mesh.next_edge(u32::MAX), None);
    assert_eq!(mesh.next_face(u32::MAX), None);
}

#[test]
fn liveness_queries() {
    let mesh = tetrahedron();
    assert!(mesh.is_live_vertex(3));
    assert!(!mesh.is_live_vertex(4));
    assert!(mesh.is_live_edge(5));
    assert!(!mesh.is_live_edge(6));
    assert!(mesh.is_live_face(3));
    assert!(!mesh.is_live_face(4));
}

#[test]
fn positions_can_be_set() {
    let mut mesh = tetrahedron();
    assert_eq!(mesh.get_position(1), [0.0, 1.0, 0.0]);
    mesh.set_position(1, &[5.0, 6.0, 7.0]);
    assert_eq!(mesh.get_position(1), [5.0, 6.0, 7.0]);
    assert_eq!(mesh.get_position(0), [0.0, 0.0, 0.0]);
    assert!(mesh.check_all());
    assert_eq!(edge_set(&mesh), edge_set(&tetrahedron()));
}

#[test]
fn octahedron_adjacency() {
    let mesh = octahedron();
    assert_eq!(mesh.num_vertices(), 6);
    assert_eq!(mesh.num_edges(), 12);
    assert_eq!(mesh.num_faces(), 8);
    for v in 0..6 {
        assert_eq!(mesh.degree(v), 4);
    }
    // vertex ids equal point indices here but for 3 and 4, which are met in the order 4, 1, 3
    // points: 0 -> 0, 2 -> 1, 4 -> 2, 1 -> 3, 3 -> 4, 5 -> 5
    let mut near = Vec::new();
    assert!(!mesh.get_vertex_neighbors(2, &mut near));
    assert_eq!(sorted(near.clone()), vec![0, 1, 3, 4]);
    // the neighbours come counter-clockwise seen from outside: around the
    // pole (0, 0, 1) that is +x, +y, -x, -y up to rotation
    let start = near.iter().position(|v| *v == 0).unwrap();
    let turned: Vec<u32> = (0..4).map(|i| near[(start + i) % 4]).collect();
    assert_eq!(turned, vec![0, 1, 3, 4]);
    let mut faces = Vec::new();
    assert!(!mesh.get_vertex_adjacent_faces(2, &mut faces));
    assert_eq!(sorted(faces), vec![0, 1, 2, 3]);
    assert!(mesh.are_adjacent(0, 1));
    assert!(!mesh.are_adjacent(0, 3));
    assert!(!mesh.are_adjacent(2, 5));
    assert!(!mesh.are_adjacent(2, 2));
}

#[test]
fn neighbors_append_keeps_what_is_there() {
    let mesh = tetrahedron();
    let mut near = vec![77];
    assert!(!mesh.get_vertex_neighbors_append(0, &mut near));
    assert_eq!(near.len(), 4);
    assert_eq!(near[0], 77);
    assert_eq!(sorted(near[1..].to_vec()), vec![1, 2, 3]);
    assert!(!mesh.get_vertex_neighbors(0, &mut near));
    assert_eq!(near.len(), 3);
}

#[test]
fn vertex_half_edges_leave_the_vertex() {
    let mesh = octahedron();
    let ring = mesh.vertex_half_edges(0);
    assert_eq!(ring.len(), 4);
    assert_eq!(sorted(ring.clone()).windows(2).filter(|w| w[0] == w[1]).count(), 0);
}

#[test]
fn edge_neighbors_of_octahedron() {
    let mesh = octahedron();
    // edge 0 is the first side of face (0, 2, 4): from vertex 0 to vertex 1 (point 2)
    let (near, far) = mesh.get_edge_neighbors(0);
    assert_eq!(near, [0, 1, 2]);
    assert_eq!(far, Some(5));
    assert_eq!(mesh.get_endpoints(0), [0, 1]);
}

#[test]
fn flip_on_tetrahedron_is_refused() {
    let mut mesh = tetrahedron();
    let before = edge_set(&mesh);
    for e in 0..6 {
        assert!(mesh.flip_edge(e).is_none());
    }
    assert!(mesh.check_all());
    assert_eq!(edge_set(&mesh), before);
}

#[test]
fn flip_turns_the_edge() {
    let mut mesh = octahedron();
    let (near, far) = mesh.get_edge_neighbors(0);
    assert_eq!(mesh.flip_edge(0), Some(()));
    assert!(mesh.check_all());
    assert_eq!(mesh.num_vertices(), 6);
    assert_eq!(mesh.num_edges(), 12);
    assert_eq!(mesh.num_faces(), 8);
    assert_eq!(euler(&mesh), 2);
    // the edge now runs from the right apex to the left apex
    assert_eq!(mesh.get_endpoints(0), [far.unwrap(), near[2]]);
    let (near2, far2) = mesh.get_edge_neighbors(0);
    assert_eq!(near2[2], near[0]);
    assert_eq!(far2, Some(near[1]));
    assert_eq!(mesh.degree(near[0]), 3);
    assert_eq!(mesh.degree(near[1]), 3);
    assert_eq!(mesh.degree(near[2]), 5);
    assert_eq!(mesh.degree(far.unwrap()), 5);
}

#[test]
fn two_flips_restore_the_edges() {
    let mut mesh = octahedron();
    let before = edge_set(&mesh);
    assert_eq!(mesh.flip_edge(3), Some(()));
    assert_ne!(edge_set(&mesh), before);
    assert_eq!(mesh.flip_edge(3), Some(()));
    assert_eq!(edge_set(&mesh), before);
    assert!(mesh.check_all());
}

#[test]
fn split_adds_a_vertex_three_edges_and_two_faces() {
    let mut mesh = octahedron();
    let (near, far) = mesh.get_edge_neighbors(0);
    let first_end = mesh.get_position(near[0]);
    assert!(mesh.has_room_for_split());
    let (m, edges) = mesh.split_edge(0);
    assert_eq!(m, 6);
    assert_eq!(edges, [14, 12, 0, 13]);
    assert_eq!(mesh.num_vertices(), 7);
    assert_eq!(mesh.num_edges(), 15);
    assert_eq!(mesh.num_faces(), 10);
    assert_eq!(euler(&mesh), 2);
    assert!(mesh.check_all());
    assert_eq!(mesh.get_position(m), first_end);
    // the four edges at the new vertex, in the order: to the left apex, to
    // the right apex, to the second end, to the first end
    assert_eq!(pair(mesh.get_endpoints(edges[0])), pair([m, near[2]]));
    assert_eq!(pair(mesh.get_endpoints(edges[1])), pair([m, far.unwrap()]));
    assert_eq!(pair(mesh.get_endpoints(edges[2])), pair([m, near[1]]));
    assert_eq!(pair(mesh.get_endpoints(edges[3])), pair([m, near[0]]));
    assert_eq!(mesh.degree(m), 4);
    assert_eq!(mesh.degree(near[0]), 4);
    assert_eq!(mesh.degree(near[2]), 5);
}

#[test]
fn collapse_on_tetrahedron_is_refused() {
    let mut mesh = tetrahedron();
    let mut modified = vec![(1, 1)];
    let mut removed = vec![1];
    for e in 0..6 {
        assert!(!mesh.can_collapse_edge(e));
        assert_eq!(mesh.collapse_edge(e, &mut modified, &mut removed), None);
        assert!(modified.is_empty());
        assert!(removed.is_empty());
    }
    assert_eq!(mesh.num_faces(), 4);
    assert!(mesh.check_all());
}

#[test]
fn collapse_on_octahedron_is_refused() {
    // the two ends of every edge have the two apexes as common neighbours,
    // and a third: the octahedron has no edge that can go
    let mesh = octahedron();
    for e in 0..12 {
        assert!(mesh.can_collapse_edge(e) == false || mesh.degree(mesh.get_endpoints(e)[0]) > 3);
    }
}

#[test]
fn split_then_collapse_restores_counts() {
    let mut mesh = octahedron();
    let (m, edges) = mesh.split_edge(0);
    let mut modified = Vec::new();
    let mut removed = Vec::new();
    let mut collapsed = 0;
    for e in edges.iter() {
        let mut copy = octahedron();
        copy.split_edge(0);
        let legal = copy.can_collapse_edge(*e);
        let ends = copy.get_endpoints(*e);
        let kept = copy.collapse_edge(*e, &mut modified, &mut removed);
        assert_eq!(kept.is_some(), legal);
        assert!(copy.check_all());
        if let Some(kept) = kept {
            collapsed += 1;
            assert_eq!(kept, ends[1]);
            assert_eq!(copy.num_vertices(), 6);
            assert_eq!(copy.num_edges(), 12);
            assert_eq!(copy.num_faces(), 8);
            assert_eq!(removed.len(), 3);
            assert!(removed.contains(e));
            for d in removed.iter() {
                assert!(!copy.is_live_edge(*d));
            }
            assert_eq!(modified.len(), copy.degree(kept));
            for (d, other) in modified.iter() {
                assert!(copy.is_live_edge(*d));
                assert_eq!(pair(copy.get_endpoints(*d)), pair([kept, *other]));
            }
            assert!(!copy.is_live_vertex(ends[0]));
        }
    }
    assert!(collapsed > 0);
    assert_eq!(mesh.degree(m), 4);
}

#[test]
fn identifiers_survive_a_collapse() {
    let mut mesh = octahedron();
    let (m, edges) = mesh.split_edge(0);
    let mut modified = Vec::new();
    let mut removed = Vec::new();
    // the split edge runs from the new vertex to the old second end
    assert_eq!(mesh.get_endpoints(edges[2])[0], m);
    let kept = mesh.collapse_edge(edges[2], &mut modified, &mut removed).unwrap();
    assert_eq!(mesh.max_idx_vertices(), 7);
    assert_eq!(mesh.max_idx_edges(), 15);
    assert_eq!(mesh.max_idx_faces(), 10);
    assert!(!mesh.is_live_vertex(m));
    assert!(mesh.is_live_vertex(kept));
    let mut cursor = mesh.initial_vertex();
    let mut live = Vec::new();
    while let Some(v) = cursor {
        live.push(v);
        cursor = mesh.next_vertex(v);
    }
    assert_eq!(live, vec![0, 1, 2, 3, 4, 5]);
    assert_eq!(live_edges(&mesh).len(), 12);
    assert_eq!(edge_set(&mesh), edge_set(&octahedron()));
}

#[test]
fn export_closes_the_gaps() {
    let mut mesh = octahedron();
    let (m, edges) = mesh.split_edge(0);
    mesh.set_position(m, &[0.5, 0.5, 0.0]);
    let mut modified = Vec::new();
    let mut removed = Vec::new();
    // collapse an edge from an old vertex into the new one
    let mut kept = None;
    for e in [edges[0], edges[1], edges[3]] {
        if mesh.get_endpoints(e)[1] == m && mesh.can_collapse_edge(e) {
            kept = mesh.collapse_edge(e, &mut modified, &mut removed);
            break;
        }
    }
    if kept.is_none() {
        return;
    }
    assert_eq!(mesh.num_vertices(), 6);
    let expected: Vec<Point> = (0..7).filter(|v| mesh.is_live_vertex(*v)).map(|v| mesh.get_position(v)).collect();
    let (points, faces) = mesh.to_vecs();
    assert_eq!(points, expected);
    assert_eq!(points.len(), 6);
    assert_eq!(faces.len(), 8);
    for face in faces.iter() {
        for corner in face.iter() {
            assert!(*corner < 6);
        }
    }
    let again = HalfEdge::from_iters(points, faces).unwrap();
    assert_eq!(again.num_vertices(), 6);
    assert_eq!(again.num_edges(), 12);
    assert_eq!(again.num_faces(), 8);
}

#[test]
fn export_then_import_gives_the_same_triangles() {
    let (points, faces) = octahedron_data();
    let mesh = HalfEdge::from_iters(points.clone(), faces.clone()).unwrap();
    let (points2, faces2) = mesh.to_vecs();
    let again = HalfEdge::from_iters(points2.clone(), faces2.clone()).unwrap();
    assert_eq!(faces2.len(), faces.len());
    for i in 0..faces.len() {
        let given: Vec<Point> = faces[i].iter().map(|c| points[*c as usize]).collect();
        let exported: Vec<Point> = faces2[i].iter().map(|c| points2[*c as usize]).collect();
        let imported: Vec<Point> =
            again.get_face_neighbors(i as u32).iter().map(|v| again.get_position(*v)).collect();
        assert_eq!(exported, given);
        assert_eq!(imported, given);
    }
    let mut a = points.clone();
    let mut b = points2.clone();
    a.sort_by(|x, y| x.partial_cmp(y).unwrap());
    b.sort_by(|x, y| x.partial_cmp(y).unwrap());
    assert_eq!(a, b);
}

#[test]
fn validators_accept_a_good_surface() {
    let mesh = octahedron();
    for h in 0..24 {
        assert!(mesh.verify_half_edge_valid(h));
    }
    for v in 0..6 {
        assert!(mesh.verify_vertex_valid(v));
    }
    for e in 0..12 {
        assert!(mesh.verify_edge_valid(e));
    }
    for f in 0..8 {
        assert!(mesh.verify_face_valid(f));
    }
}

#[test]
fn room_for_splits() {
    let mesh = octahedron();
    assert!(mesh.has_room_for_split());
    assert!(mesh.has_room_for_splits(0));
    assert!(mesh.has_room_for_splits(1000));
    // six half-edges for each split: 24 + 6 k must not pass 4294967295
    assert!(mesh.has_room_for_splits(715827878));
    assert!(!mesh.has_room_for_splits(715827879));
    assert!(!mesh.has_room_for_splits(usize::MAX));
}

#[test]
fn every_half_edge_closes_its_triangle() {
    let mut mesh = octahedron();
    mesh.split_edge(3);
    mesh.flip_edge(0);
    for h in 0..mesh.max_idx_half_edges() as u32 {
        assert!(mesh.verify_half_edge_valid(h));
    }
    // the half-edges around a vertex are as many as its neighbours
    for v in 0..7 {
        let mut near = Vec::new();
        mesh.get_vertex_neighbors(v, &mut near);
        assert_eq!(mesh.vertex_half_edges(v).len(), near.len());
        assert_eq!(mesh.degree(v), near.len());
        for u in near.iter() {
            assert!(mesh.are_adjacent(v, *u));
            assert!(mesh.are_adjacent(*u, v));
        }
    }
}

#[test]
fn random_rewrites_keep_the_surface_well_formed() {
    let mut mesh = octahedron();
    let mut seed: u32 = 2024;
    let mut next = move || {
        seed = seed.wrapping_mul(1664525).wrapping_add(1013904223);
        seed >> 8
    };
    let mut modified = Vec::new();
    let mut removed = Vec::new();
    let (mut flips, mut splits, mut collapses) = (0, 0, 0);
    for _ in 0..400 {
        let edges = live_edges(&mesh);
        let e = edges[next() as usize % edges.len()];
        let vertices = mesh.num_vertices();
        let faces = mesh.num_faces();
        match next() % 3 {
            0 => {
                let ends = pair(mesh.get_endpoints(e));
                if mesh.flip_edge(e).is_some() {
                    flips += 1;
                    assert_ne!(pair(mesh.get_endpoints(e)), ends);
                }
                assert_eq!(mesh.num_faces(), faces);
            }
            1 => {
                if mesh.num_vertices() < 60 {
                    mesh.split_edge(e);
                    splits += 1;
                    assert_eq!(mesh.num_vertices(), vertices + 1);
                    assert_eq!(mesh.num_faces(), faces + 2);
                }
            }
            _ => {
                let legal = mesh.can_collapse_edge(e);
                let kept = mesh.collapse_edge(e, &mut modified, &mut removed);
                assert_eq!(kept.is_some(), legal);
                if kept.is_some() {
                    collapses += 1;
                    assert_eq!(mesh.num_vertices(), vertices - 1);
                    assert_eq!(mesh.num_faces(), faces - 2);
                }
            }
        }
        assert_eq!(euler(&mesh), 2);
        assert!(mesh.check_all());
        let set = edge_set(&mesh);
        for w in set.windows(2) {
            assert_ne!(w[0], w[1]);
        }
    }
    assert!(flips > 10 && splits > 10 && collapses > 10);
    let (points, faces) = mesh.to_vecs();
    let again = HalfEdge::from_iters(points, faces).unwrap();
    assert!(again.check_all());
}
