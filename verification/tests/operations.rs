use mesh::Denoise;
use mesh::EdgeCost;
use mesh::EdgeQueue;
use mesh::EdgeResult;
use mesh::EdgeTarget;
use mesh::HalfEdge;
use mesh::Remesh;
use mesh::RemeshError;
use mesh::Simplify;
use mesh::SimplifyStep;
use mesh::Subdivide;
use mesh::SubdivideError;

type Point = [f32; 3];

fn solid_tetrahedron() -> HalfEdge<Point> {
    let points = vec![[0.0, 0.0, 0.0], [1.0, 0.0, 0.0], [0.0, 1.0, 0.0], [0.0, 0.0, 1.0]];
    let faces = vec![[0, 2, 1], [0, 1, 3], [0, 3, 2], [1, 2, 3]];
    HalfEdge::from_iters(points, faces).unwrap()
}

fn solid_octahedron() -> HalfEdge<Point> {
    let points = vec![
        [1.0, 0.0, 0.0],
        [-1.0, 0.0, 0.0],
        [0.0, 1.0, 0.0],
        [0.0, -1.0, 0.0],
        [0.0, 0.0, 1.0],
        [0.0, 0.0, -1.0],
    ];
    let faces =
        vec![[0, 2, 4], [2, 1, 4], [1, 3, 4], [3, 0, 4], [2, 0, 5], [1, 2, 5], [3, 1, 5], [0, 3, 5]];
    HalfEdge::from_iters(points, faces).unwrap()
}

fn unit_cube() -> HalfEdge<Point> {
    let points = vec![
        [0.0, 0.0, 0.0],
        [1.0, 0.0, 0.0],
        [1.0, 1.0, 0.0],
        [0.0, 1.0, 0.0],
        [0.0, 0.0, 1.0],
        [1.0, 0.0, 1.0],
        [1.0, 1.0, 1.0],
        [0.0, 1.0, 1.0],
    ];
    let faces = vec![
        [0, 3, 2],
        [0, 2, 1],
        [4, 5, 6],
        [4, 6, 7],
        [0, 1, 5],
        [0, 5, 4],
        [3, 7, 6],
        [3, 6, 2],
        [0, 4, 7],
        [0, 7, 3],
        [1, 2, 6],
        [1, 6, 5],
    ];
    HalfEdge::from_iters(points, faces).unwrap()
}

fn midpoint(a: Point, b: Point) -> Point {
    [(a[0] + b[0]) / 2.0, (a[1] + b[1]) / 2.0, (a[2] + b[2]) / 2.0]
}

fn snapshot(mesh: &HalfEdge<Point>) -> (Vec<Point>, Vec<Vec<u32>>) {
    let mut points = Vec::new();
    let mut cursor = mesh.initial_vertex();
    while let Some(v) = cursor {
        points.push(mesh.get_position(v));
        cursor = mesh.next_vertex(v);
    }
    let mut faces = Vec::new();
    let mut cursor = mesh.initial_face();
    while let Some(f) = cursor {
        faces.push(mesh.get_face_neighbors(f).to_vec());
        cursor = mesh.next_face(f);
    }
    (points, faces)
}

fn edge_midpoints(mesh: &HalfEdge<Point>) -> Vec<Point> {
    Subdivide::edge_stencils(mesh)
        .iter()
        .map(|s| midpoint(mesh.get_position(s.near[0]), mesh.get_position(s.near[1])))
        .collect()
}

#[test]
fn stencils_name_the_four_vertices_around_each_edge() {
    let mesh = solid_octahedron();
    let stencils = Subdivide::edge_stencils(&mesh);
    assert_eq!(stencils.len(), 12);
    for (i, s) in stencils.iter().enumerate() {
        assert_eq!(s.edge, i as u32);
        let (near, far) = mesh.get_edge_neighbors(s.edge);
        assert_eq!(s.near, [near[0], near[1]]);
        assert_eq!(s.far, [near[2], far.unwrap()]);
    }
    assert_eq!(stencils[0].near, [0, 1]);
    assert_eq!(stencils[0].far, [2, 5]);
}

#[test]
fn subdivided_tetrahedron() {
    let mut mesh = solid_tetrahedron();
    let points = edge_midpoints(&mesh);
    assert_eq!(Subdivide::refine(&mut mesh, &points), Ok(()));
    assert_eq!(mesh.num_faces(), 16);
    assert_eq!(mesh.num_edges(), 24);
    assert_eq!(mesh.num_vertices(), 10);
    assert_eq!(mesh.num_vertices() as i64 - mesh.num_edges() as i64 + mesh.num_faces() as i64, 2);
    assert!(mesh.check_all());
    // the old vertices keep their three edges, the new ones have six
    for v in 0..4 {
        assert_eq!(mesh.degree(v), 3);
    }
    for v in 4..10 {
        assert_eq!(mesh.degree(v), 6);
        assert_eq!(mesh.get_position(v), points[(v - 4) as usize]);
    }
    assert_eq!(mesh.get_position(0), [0.0, 0.0, 0.0]);
}

#[test]
fn subdivision_quadruples_the_faces() {
    let mut mesh = solid_octahedron();
    for round in 1..4 {
        let points = edge_midpoints(&mesh);
        let faces = mesh.num_faces();
        let edges = mesh.num_edges();
        let vertices = mesh.num_vertices();
        assert_eq!(Subdivide::refine(&mut mesh, &points), Ok(()));
        assert_eq!(mesh.num_faces(), 4 * faces);
        assert_eq!(mesh.num_edges(), 4 * edges);
        assert_eq!(mesh.num_vertices(), vertices + edges);
        assert_eq!(mesh.num_faces(), 8 * 4usize.pow(round));
        assert!(mesh.check_all());
    }
}

#[test]
fn subdivision_needs_one_position_for_each_edge() {
    let mut mesh = solid_tetrahedron();
    let before = snapshot(&mesh);
    let points = vec![[0.0, 0.0, 0.0]; 5];
    assert_eq!(Subdivide::refine(&mut mesh, &points), Err(SubdivideError::PositionCount));
    assert_eq!(snapshot(&mesh), before);
    assert_eq!(Subdivide::new(3).get_iterations(), 3);
}

#[test]
fn queue_gives_the_cheapest_first() {
    let mut queue = EdgeQueue::new();
    assert_eq!(queue.pop(), None);
    for (cost, edge_idx, count) in [(5, 0, 0), (2, 1, 0), (9, 2, 0), (2, 3, 0), (2, 3, 1), (0, 4, 7), (7, 5, 0)] {
        queue.push(EdgeCost { cost, edge_idx, count });
    }
    assert_eq!(queue.len(), 7);
    let mut out = Vec::new();
    while let Some(entry) = queue.pop() {
        out.push((entry.cost, entry.edge_idx, entry.count));
    }
    // among equal costs the greater edge goes first, then the greater count
    assert_eq!(out, vec![(0, 4, 7), (2, 3, 1), (2, 3, 0), (2, 1, 0), (5, 0, 0), (7, 5, 0), (9, 2, 0)]);
    assert_eq!(queue.len(), 0);
    assert!(EdgeCost { cost: 1, edge_idx: 0, count: 0 }.goes_before(&EdgeCost { cost: 2, edge_idx: 9, count: 9 }));
    assert!(!EdgeCost { cost: 1, edge_idx: 0, count: 0 }.goes_before(&EdgeCost { cost: 1, edge_idx: 0, count: 0 }));
}

#[test]
fn queue_sorts_many() {
    let mut queue = EdgeQueue::new();
    let mut seed: u32 = 12345;
    let mut all = Vec::new();
    for i in 0..500u32 {
        seed = seed.wrapping_mul(1664525).wrapping_add(1013904223);
        let cost = (seed >> 16) % 50;
        all.push((cost, i));
        queue.push(EdgeCost { cost, edge_idx: i, count: 0 });
    }
    all.sort_by(|a, b| a.0.cmp(&b.0).then(b.1.cmp(&a.1)));
    let mut out = Vec::new();
    while let Some(entry) = queue.pop() {
        out.push((entry.cost, entry.edge_idx));
    }
    assert_eq!(out, all);
}

fn results_for(mesh: &HalfEdge<Point>, edges: &[(u32, [u32; 2])]) -> Vec<EdgeResult<Point>> {
    edges
        .iter()
        .map(|(e, ends)| EdgeResult {
            best_position: midpoint(mesh.get_position(ends[0]), mesh.get_position(ends[1])),
            cost: *e,
        })
        .collect()
}

fn all_edges(mesh: &HalfEdge<Point>) -> Vec<(u32, [u32; 2])> {
    let mut out = Vec::new();
    let mut cursor = mesh.initial_edge();
    while let Some(e) = cursor {
        out.push((e, mesh.get_endpoints(e)));
        cursor = mesh.next_edge(e);
    }
    out
}

/// Runs the scheduler to its end; the result is the last step.
fn run(simplify: &Simplify, mesh: &mut HalfEdge<Point>) -> SimplifyStep {
    let results = results_for(mesh, &all_edges(mesh));
    let mut state = simplify.begin(mesh, &results).unwrap();
    loop {
        match Simplify::step(mesh, &mut state) {
            SimplifyStep::Collapsed { new_vertex, .. } => {
                let modified: Vec<(u32, [u32; 2])> =
                    state.modified_edges().iter().map(|(e, other)| (*e, [new_vertex, *other])).collect();
                let results = results_for(mesh, &modified);
                assert!(Simplify::update(mesh, &mut state, new_vertex, &results));
            }
            last => return last,
        }
    }
}

#[test]
fn simplify_nothing_changes_nothing() {
    let mut mesh = unit_cube();
    let before = snapshot(&mesh);
    assert_eq!(run(&Simplify::new(0), &mut mesh), SimplifyStep::Done);
    assert_eq!(snapshot(&mesh), before);
    assert_eq!(mesh.num_faces(), 12);
}

#[test]
fn simplify_tetrahedron_runs_out_of_edges() {
    let mut mesh = solid_tetrahedron();
    let before = snapshot(&mesh);
    assert_eq!(run(&Simplify::new(2), &mut mesh), SimplifyStep::QueueEmpty);
    assert_eq!(snapshot(&mesh), before);
}

#[test]
fn simplify_cube_by_four_faces() {
    let mut mesh = unit_cube();
    assert_eq!(mesh.num_faces(), 12);
    assert_eq!(run(&Simplify::new(4), &mut mesh), SimplifyStep::Done);
    assert_eq!(mesh.num_faces(), 8);
    assert_eq!(mesh.num_vertices(), 6);
    assert_eq!(mesh.num_edges(), 12);
    assert!(mesh.check_all());
}

#[test]
fn simplify_stops_at_no_faces_less_than_asked() {
    let simplify = Simplify::new(100);
    assert_eq!(simplify.get_faces_to_remove(), 100);
    let mut mesh = unit_cube();
    let results = results_for(&mesh, &all_edges(&mesh));
    let state = simplify.begin(&mesh, &results).unwrap();
    assert_eq!(state.final_num_faces(), 0);
    assert_eq!(Simplify::new(5).begin(&mesh, &results).unwrap().final_num_faces(), 7);
    let last = run(&simplify, &mut mesh);
    assert_eq!(last, SimplifyStep::QueueEmpty);
    assert!(mesh.num_faces() >= 4);
    assert!(mesh.check_all());
}

#[test]
fn simplify_wants_one_result_for_each_edge() {
    let mesh = unit_cube();
    let mut results = results_for(&mesh, &all_edges(&mesh));
    results.pop();
    assert!(Simplify::new(1).begin(&mesh, &results).is_none());
}

#[test]
fn simplify_records_the_collapse() {
    let mut mesh = unit_cube();
    let edges = all_edges(&mesh);
    let results = results_for(&mesh, &edges);
    let mut state = Simplify::new(2).begin(&mesh, &results).unwrap();
    for (e, ends) in edges.iter() {
        let info = state.edge_info(*e).unwrap();
        assert_eq!([info.first, info.second], *ends);
        assert_eq!(info.count, 0);
    }
    assert!(state.edge_info(18).is_none());
    match Simplify::step(&mut mesh, &mut state) {
        SimplifyStep::Collapsed { entry, new_vertex, first, second } => {
            let ends = edges[entry.edge_idx as usize].1;
            assert_eq!([first, second], ends);
            assert_eq!(new_vertex, ends[1]);
            assert_eq!(entry.count, 0);
            assert_eq!(entry.cost, entry.edge_idx);
            assert!(!mesh.is_live_edge(entry.edge_idx));
            assert!(state.edge_info(entry.edge_idx).is_none());
            assert_eq!(mesh.get_position(new_vertex), results[entry.edge_idx as usize].best_position);
            assert_eq!(mesh.num_faces(), 10);
            let modified = state.modified_edges().clone();
            assert_eq!(modified.len(), mesh.degree(new_vertex));
            let updates: Vec<EdgeResult<Point>> =
                modified.iter().map(|_| EdgeResult { best_position: [0.0, 0.0, 0.0], cost: 1000 }).collect();
            assert!(!Simplify::update(&mesh, &mut state, new_vertex, &Vec::new()));
            assert!(Simplify::update(&mesh, &mut state, new_vertex, &updates));
            for (e, other) in modified.iter() {
                let info = state.edge_info(*e).unwrap();
                assert_eq!(info.first, new_vertex);
                assert_eq!(info.second, *other);
                assert_eq!(info.count, 1);
                assert_eq!(info.best_position, [0.0, 0.0, 0.0]);
            }
        }
        other => panic!("no collapse: {:?}", other),
    }
}

#[test]
fn valence_rule() {
    assert!(!mesh::improves_valence(4, 4, 4, 4));
    assert!(mesh::improves_valence(7, 7, 5, 5));
    assert!(mesh::improves_valence(8, 8, 4, 4));
    assert!(!mesh::improves_valence(6, 6, 6, 6));
    // the ends must keep three edges
    assert!(!mesh::improves_valence(3, 9, 2, 2));
    assert!(!mesh::improves_valence(9, 3, 2, 2));
    assert!(mesh::improves_valence(4, 9, 2, 2));
    assert!(!mesh::improves_valence(7, 6, 6, 6));
}

#[test]
fn remesh_octahedron_flips_nothing() {
    let mut mesh = solid_octahedron();
    let before = snapshot(&mesh);
    assert_eq!(Remesh::flip_for_valence(&mut mesh), 0);
    assert_eq!(snapshot(&mesh), before);
    let remesh = Remesh::new(1, true);
    assert_eq!(remesh.get_iterations(), 1);
    assert!(remesh.get_no_collapse());
}

#[test]
fn remesh_flips_where_degrees_improve() {
    let mut mesh = solid_octahedron();
    // after the flip of edge 0 its ends have three edges and its apexes
    // five: no rule asks to flip it back, nor any other edge
    mesh.flip_edge(0).unwrap();
    let degrees: Vec<usize> = (0..6).map(|v| mesh.degree(v)).collect();
    let flips = Remesh::flip_for_valence(&mut mesh);
    assert!(mesh.check_all());
    assert_eq!(mesh.num_faces(), 8);
    assert_eq!(mesh.num_edges(), 12);
    if flips == 0 {
        assert_eq!((0..6).map(|v| mesh.degree(v)).collect::<Vec<usize>>(), degrees);
    }
}

#[test]
fn remesh_splits_the_named_edges() {
    let mut mesh = solid_octahedron();
    let targets = vec![
        EdgeTarget { edge: 0, position: [0.5, 0.5, 0.0] },
        EdgeTarget { edge: 5, position: [9.0, 9.0, 9.0] },
    ];
    assert_eq!(Remesh::split_long(&mut mesh, &targets), Ok(()));
    assert_eq!(mesh.num_vertices(), 8);
    assert_eq!(mesh.num_edges(), 18);
    assert_eq!(mesh.num_faces(), 12);
    assert_eq!(mesh.get_position(6), [0.5, 0.5, 0.0]);
    assert_eq!(mesh.get_position(7), [9.0, 9.0, 9.0]);
    assert!(mesh.check_all());
    let before = snapshot(&mesh);
    let dead = vec![EdgeTarget { edge: 0, position: [0.0, 0.0, 0.0] }, EdgeTarget { edge: 99, position: [0.0, 0.0, 0.0] }];
    assert_eq!(Remesh::split_long(&mut mesh, &dead), Err(RemeshError::DeadEdge));
    assert_eq!(snapshot(&mesh), before);
}

#[test]
fn remesh_collapses_and_passes_over_changed_edges() {
    let mut mesh = solid_octahedron();
    let (m, edges) = mesh.split_edge(0);
    // every edge at the new vertex, twice over
    let mut targets = Vec::new();
    for e in edges.iter().chain(edges.iter()) {
        targets.push(EdgeTarget { edge: *e, position: [3.0, 3.0, 3.0] });
    }
    let count = Remesh::collapse_short(&mut mesh, &targets).unwrap();
    assert_eq!(count, 1);
    assert_eq!(mesh.num_vertices(), 6);
    assert_eq!(mesh.num_edges(), 12);
    assert_eq!(mesh.num_faces(), 8);
    assert!(mesh.check_all());
    let moved: Vec<u32> = (0..7).filter(|v| mesh.is_live_vertex(*v) && mesh.get_position(*v) == [3.0, 3.0, 3.0]).collect();
    assert_eq!(moved.len(), 1);
    assert!(m == 6);
    let dead = vec![EdgeTarget { edge: 77, position: [0.0, 0.0, 0.0] }];
    assert_eq!(Remesh::collapse_short(&mut mesh, &dead), Err(RemeshError::DeadEdge));
    assert_eq!(Remesh::collapse_short(&mut mesh, &Vec::new()), Ok(0));
}

#[test]
fn neighborhood_of_tetrahedron_is_everything() {
    let mesh = solid_tetrahedron();
    for v in 0..4 {
        let mut found = Denoise::neighborhood(&mesh, v, 1);
        assert_eq!(found[0], v);
        found.sort();
        assert_eq!(found, vec![0, 1, 2, 3]);
    }
    assert_eq!(Denoise::neighborhood(&mesh, 2, 0), vec![2]);
}

#[test]
fn neighborhood_grows_ring_by_ring() {
    let mesh = solid_octahedron();
    assert_eq!(Denoise::neighborhood(&mesh, 0, 0), vec![0]);
    let one = Denoise::neighborhood(&mesh, 0, 1);
    assert_eq!(one.len(), 5);
    assert_eq!(one[0], 0);
    // vertex 3 is the point opposite to vertex 0
    assert!(!one.contains(&3));
    let mut two = Denoise::neighborhood(&mesh, 0, 2);
    assert_eq!(two[..5], one[..]);
    assert_eq!(two[5], 3);
    two.sort();
    assert_eq!(two, vec![0, 1, 2, 3, 4, 5]);
    let mut many = Denoise::neighborhood(&mesh, 0, 1000);
    many.sort();
    assert_eq!(many, two);
    let denoise = Denoise::new(2, 3);
    assert_eq!(denoise.get_iterations(), 2);
    assert_eq!(denoise.get_kernel_size(), 3);
}

fn refined_octahedron(rounds: u32) -> HalfEdge<Point> {
    let mut mesh = solid_octahedron();
    for _ in 0..rounds {
        let points = edge_midpoints(&mesh);
        assert_eq!(Subdivide::refine(&mut mesh, &points), Ok(()));
    }
    mesh
}

fn assert_simple(mesh: &HalfEdge<Point>) {
    let mut seen = std::collections::HashSet::new();
    for (_, ends) in all_edges(mesh) {
        assert_ne!(ends[0], ends[1]);
        let key = if ends[0] < ends[1] { (ends[0], ends[1]) } else { (ends[1], ends[0]) };
        assert!(seen.insert(key));
    }
}

#[test]
fn simplify_a_larger_surface() {
    let mut mesh = refined_octahedron(2);
    assert_eq!(mesh.num_faces(), 128);
    assert_eq!(run(&Simplify::new(100), &mut mesh), SimplifyStep::Done);
    assert_eq!(mesh.num_faces(), 28);
    assert_eq!(mesh.num_edges(), 42);
    assert_eq!(mesh.num_vertices(), 16);
    assert!(mesh.check_all());
    assert_simple(&mesh);
    let (points, faces) = mesh.to_vecs();
    assert_eq!(points.len(), 16);
    assert_eq!(faces.len(), 28);
    assert!(HalfEdge::from_iters(points, faces).is_ok());
}

#[test]
fn simplify_passes_over_stale_entries() {
    // every update makes the edges at the merged vertex the cheapest, so
    // that the entries queued for them earlier are met later, out of date
    let mut mesh = refined_octahedron(1);
    let edges = all_edges(&mesh);
    let results: Vec<EdgeResult<Point>> =
        edges.iter().map(|(e, _)| EdgeResult { best_position: [0.0, 0.0, 0.0], cost: 1000 + *e }).collect();
    let mut state = Simplify::new(20).begin(&mesh, &results).unwrap();
    let mut collapses = 0;
    loop {
        match Simplify::step(&mut mesh, &mut state) {
            SimplifyStep::Collapsed { entry, new_vertex, .. } => {
                collapses += 1;
                assert_eq!(state.edge_info(entry.edge_idx).map(|i| i.count), None);
                let updates: Vec<EdgeResult<Point>> = state
                    .modified_edges()
                    .iter()
                    .map(|_| EdgeResult { best_position: [1.0, 1.0, 1.0], cost: 5 })
                    .collect();
                assert!(Simplify::update(&mesh, &mut state, new_vertex, &updates));
                for (e, _) in state.modified_edges().clone().iter() {
                    assert!(state.edge_info(*e).unwrap().count >= 1);
                }
            }
            SimplifyStep::Done => break,
            SimplifyStep::QueueEmpty => break,
        }
        assert!(mesh.check_all());
    }
    assert!(collapses > 0);
    assert_eq!(mesh.num_faces(), 32 - 2 * collapses);
    assert_simple(&mesh);
}

#[test]
fn remesh_phases_keep_the_surface_closed() {
    let mut mesh = refined_octahedron(1);
    let edges = all_edges(&mesh);
    let to_split: Vec<EdgeTarget<Point>> = edges
        .iter()
        .filter(|(e, _)| e % 3 == 0)
        .map(|(e, ends)| EdgeTarget {
            edge: *e,
            position: midpoint(mesh.get_position(ends[0]), mesh.get_position(ends[1])),
        })
        .collect();
    let to_collapse: Vec<EdgeTarget<Point>> = edges
        .iter()
        .filter(|(e, _)| e % 3 == 1)
        .map(|(e, ends)| EdgeTarget {
            edge: *e,
            position: midpoint(mesh.get_position(ends[0]), mesh.get_position(ends[1])),
        })
        .collect();
    let faces = mesh.num_faces();
    assert_eq!(Remesh::split_long(&mut mesh, &to_split), Ok(()));
    assert_eq!(mesh.num_faces(), faces + 2 * to_split.len());
    assert!(mesh.check_all());
    let faces = mesh.num_faces();
    let collapsed = Remesh::collapse_short(&mut mesh, &to_collapse).unwrap();
    assert!(collapsed > 0);
    assert_eq!(mesh.num_faces(), faces - 2 * collapsed);
    assert!(mesh.check_all());
    assert_simple(&mesh);
    let flips = Remesh::flip_for_valence(&mut mesh);
    assert!(mesh.check_all());
    assert_simple(&mesh);
    assert_eq!(mesh.num_faces(), faces - 2 * collapsed);
    // a second pass finds less to do or nothing
    let again = Remesh::flip_for_valence(&mut mesh);
    assert!(again <= flips || mesh.check_all());
    assert_eq!(mesh.num_vertices() as i64 - mesh.num_edges() as i64 + mesh.num_faces() as i64, 2);
}

#[test]
fn neighborhood_sizes_on_a_refined_surface() {
    let mesh = refined_octahedron(2);
    // an old vertex has four edges, a new one six
    assert_eq!(Denoise::neighborhood(&mesh, 0, 1).len(), 5);
    assert_eq!(Denoise::neighborhood(&mesh, 20, 1).len(), 7);
    let two = Denoise::neighborhood(&mesh, 0, 2);
    assert_eq!(two.len(), 13);
    let mut sorted = two.clone();
    sorted.sort();
    sorted.dedup();
    assert_eq!(sorted.len(), two.len());
    let all = Denoise::neighborhood(&mesh, 0, 100);
    assert_eq!(all.len(), mesh.num_vertices());
}

#[test]
fn no_edge_is_a_loop_or_doubled() {
    let mut mesh = refined_octahedron(2);
    assert_simple(&mesh);
    for e in [0u32, 7, 33, 100, 150] {
        mesh.flip_edge(e);
        assert_simple(&mesh);
    }
    let mut modified = Vec::new();
    let mut removed = Vec::new();
    for e in [5u32, 60, 61, 62, 120] {
        if mesh.is_live_edge(e) {
            mesh.collapse_edge(e, &mut modified, &mut removed);
            assert_simple(&mesh);
        }
    }
    assert!(mesh.check_all());
}
