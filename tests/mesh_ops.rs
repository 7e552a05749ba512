use halfedge_mesh::{
    add_face, bevel_edges_connectivity, bevel_pulls, chamfer_vertex, collapse_edge, cut_face, dissolve_edge,
    dissolve_vertex, divide_edge, duplicate_edge, extrude_face_connectivity, extrude_faces_connectivity,
    from_polygons, silhouette, split_edge, split_vertex, FaceId, HalfEdgeMesh, MeshError, PairMap, VertexId,
};
use halfedge_mesh::compound::merges;

type P = [f32; 3];

fn lerp(a: P, b: P, t: f32) -> P {
    [a[0] + (b[0] - a[0]) * t, a[1] + (b[1] - a[1]) * t, a[2] + (b[2] - a[2]) * t]
}

fn cube() -> HalfEdgeMesh<P> {
    let positions = vec![
        [0.0, 0.0, 0.0],
        [1.0, 0.0, 0.0],
        [1.0, 0.0, 1.0],
        [0.0, 0.0, 1.0],
        [0.0, 1.0, 0.0],
        [1.0, 1.0, 0.0],
        [1.0, 1.0, 1.0],
        [0.0, 1.0, 1.0],
    ];
    let faces = vec![
        vec![0, 1, 2, 3],
        vec![4, 7, 6, 5],
        vec![0, 4, 5, 1],
        vec![1, 5, 6, 2],
        vec![2, 6, 7, 3],
        vec![3, 7, 4, 0],
    ];
    from_polygons(&positions, &faces).unwrap()
}

fn tetrahedron() -> HalfEdgeMesh<P> {
    let positions = vec![[0.0, 0.0, 0.0], [1.0, 0.0, 0.0], [0.0, 1.0, 0.0], [0.0, 0.0, 1.0]];
    let faces = vec![vec![0, 2, 1], vec![0, 1, 3], vec![1, 2, 3], vec![2, 0, 3]];
    from_polygons(&positions, &faces).unwrap()
}

fn plane() -> HalfEdgeMesh<P> {
    let positions = vec![
        [0.0, 0.0, 0.0],
        [1.0, 0.0, 0.0],
        [2.0, 0.0, 0.0],
        [0.0, 0.0, 1.0],
        [1.0, 0.0, 1.0],
        [2.0, 0.0, 1.0],
    ];
    let faces = vec![vec![0, 3, 4, 1], vec![1, 4, 5, 2]];
    from_polygons(&positions, &faces).unwrap()
}

fn counts(m: &HalfEdgeMesh<P>) -> (usize, usize, usize) {
    (m.iter_vertices().len(), m.iter_halfedges().len(), m.iter_faces().len())
}

fn vertex(m: &HalfEdgeMesh<P>, i: usize) -> VertexId {
    m.iter_vertices()[i]
}

fn face(m: &HalfEdgeMesh<P>, i: usize) -> FaceId {
    m.iter_faces()[i]
}

fn sorted_face_sizes(m: &HalfEdgeMesh<P>) -> Vec<usize> {
    let mut sizes: Vec<usize> =
        m.iter_faces().iter().map(|f| m.face_vertices(*f).unwrap().len()).collect();
    sizes.sort();
    sizes
}

#[test]
fn built_meshes_meet_invariants() {
    for m in [cube(), tetrahedron(), plane()] {
        assert!(m.check_invariants());
        assert_eq!(counts(&m).1 % 2, 0);
    }
    assert_eq!(counts(&cube()), (8, 24, 6));
    assert_eq!(counts(&tetrahedron()), (4, 12, 4));
    // Two quads: 8 inner half-edges and 6 boundary ones.
    assert_eq!(counts(&plane()), (6, 14, 2));
}

#[test]
fn cube_extrusion() {
    let mut m = cube();
    let top = face(&m, 1);
    let (sides, front) = extrude_face_connectivity(&mut m, top, |p: P| [p[0], p[1] + 1.0, p[2]]).unwrap();
    assert_eq!(sides.len(), 4);
    assert_eq!(counts(&m).0, 12);
    assert_eq!(counts(&m).2, 10);
    assert!(!m.contains_face(top));
    assert!(m.check_invariants());
    let ring = m.face_vertices(front).unwrap();
    assert_eq!(ring.len(), 4);
    for v in ring {
        assert_eq!(m.vertex_position(v).unwrap()[1], 2.0);
    }
    assert_eq!(counts(&m).1 % 2, 0);
}

#[test]
fn extrude_by_zero_adds_flat_sides() {
    let mut m = cube();
    let top = face(&m, 1);
    let old_ring = m.face_vertices(top).unwrap();
    let (sides, front) = extrude_face_connectivity(&mut m, top, |p: P| p).unwrap();
    assert!(m.check_invariants());
    assert_eq!(counts(&m), (12, 40, 10));
    assert_eq!(sorted_face_sizes(&m), vec![4; 10]);
    let new_ring = m.face_vertices(front).unwrap();
    for (a, b) in old_ring.iter().zip(new_ring.iter()) {
        assert_eq!(m.vertex_position(*a).unwrap(), m.vertex_position(*b).unwrap());
    }
    for s in sides.to_vec() {
        let vs = m.face_vertices(s).unwrap();
        assert_eq!(m.vertex_position(vs[1]).unwrap(), m.vertex_position(vs[2]).unwrap());
        assert_eq!(m.vertex_position(vs[0]).unwrap(), m.vertex_position(vs[3]).unwrap());
    }
}

#[test]
fn edge_divide_stability() {
    let mut m = tetrahedron();
    let v0 = vertex(&m, 0);
    let v1 = vertex(&m, 1);
    let h = m.halfedge_to(v0, v1).unwrap();
    let pos = lerp(m.vertex_position(v0).unwrap(), m.vertex_position(v1).unwrap(), 0.5);
    let x = divide_edge(&mut m, h, pos).unwrap();
    assert!(m.contains_halfedge(h));
    assert_eq!(m.src_vertex(h).unwrap(), x);
    assert_eq!(m.dst_vertex(h).unwrap(), v1);
    let new_edge = m.halfedge_to(v0, x).unwrap();
    assert_ne!(new_edge, h);
    assert_eq!(m.src_dst_pair(new_edge).unwrap(), (v0, x));
    assert_eq!(m.vertex_position(x).unwrap(), [0.5, 0.0, 0.0]);
    assert_eq!(counts(&m), (5, 14, 4));
    assert!(m.check_invariants());
}

#[test]
fn divide_then_collapse_restores_the_mesh() {
    let mut m = tetrahedron();
    let before = counts(&m);
    let mut rings_before: Vec<Vec<VertexId>> =
        m.iter_faces().iter().map(|f| m.face_vertices(*f).unwrap()).collect();
    let v0 = vertex(&m, 0);
    let v1 = vertex(&m, 1);
    let h = m.halfedge_to(v0, v1).unwrap();
    let x = divide_edge(&mut m, h, [0.5, 0.0, 0.0]).unwrap();
    let new_edge = m.halfedge_to(v0, x).unwrap();
    let kept = collapse_edge(&mut m, new_edge).unwrap();
    assert_eq!(kept, v0);
    assert!(!m.contains_vertex(x));
    assert_eq!(counts(&m), before);
    assert!(m.check_invariants());
    let mut rings_after: Vec<Vec<VertexId>> =
        m.iter_faces().iter().map(|f| m.face_vertices(*f).unwrap()).collect();
    for r in rings_before.iter_mut().chain(rings_after.iter_mut()) {
        r.sort();
    }
    rings_before.sort();
    rings_after.sort();
    assert_eq!(rings_before, rings_after);
}

#[test]
fn chamfer_then_dissolve() {
    let mut m = cube();
    let corner = vertex(&m, 0);
    let (cap, new_vs) = chamfer_vertex(&mut m, corner, |a: P, b: P| lerp(a, b, 0.25)).unwrap();
    assert_eq!(new_vs.len(), 3);
    assert!(!m.contains_vertex(corner));
    assert_eq!(m.face_vertices(cap).unwrap().len(), 3);
    assert_eq!(counts(&m).0, 10);
    assert_eq!(counts(&m).2, 7);
    assert!(m.check_invariants());
    assert_eq!(m.vertex_position(new_vs.get(0)).unwrap().iter().filter(|c| **c == 0.25).count(), 1);
    dissolve_vertex(&mut m, new_vs.get(0)).unwrap();
    assert!(m.check_twins());
    assert!(m.check_faces());
    assert!(m.check_fans());
    assert_eq!(counts(&m).1 % 2, 0);
}

#[test]
fn bevel_single_edge_of_cube() {
    let mut m = cube();
    let v0 = vertex(&m, 0);
    let v1 = vertex(&m, 1);
    let h = m.halfedge_to(v0, v1).unwrap();
    let faces_before = counts(&m).2;
    let beveled = bevel_edges_connectivity(&mut m, &vec![h]).unwrap();
    assert_eq!(beveled.len(), 2);
    assert!(beveled.contains(&h));
    assert!(!m.contains_vertex(v0));
    assert!(!m.contains_vertex(v1));
    assert_eq!(counts(&m).0, 10);
    assert!(m.check_twins());
    // The new quad lies across each beveled half-edge.
    let t = m.twin(h).unwrap();
    let strip = m.face_of(t).unwrap();
    assert_eq!(m.face_vertices(strip).unwrap().len(), 4);
    // The two faces at the ends of the edge gain a corner each. The two
    // corner caps are merged down to two-sided faces, which the collapses
    // leave in place.
    assert_eq!(counts(&m).2, faces_before + 3);
    assert_eq!(sorted_face_sizes(&m), vec![2, 2, 4, 4, 4, 4, 4, 5, 5]);
}

#[test]
fn bevel_of_no_edges_is_identity() {
    let mut m = cube();
    let before: Vec<_> = m.iter_halfedges().iter().map(|h| m.halfedge(*h).unwrap()).collect();
    let r = bevel_edges_connectivity(&mut m, &vec![]).unwrap();
    assert!(r.is_empty());
    let after: Vec<_> = m.iter_halfedges().iter().map(|h| m.halfedge(*h).unwrap()).collect();
    assert_eq!(before, after);
    assert_eq!(counts(&m), (8, 24, 6));
}

#[test]
fn dissolve_boundary_error() {
    let mut m = plane();
    let before: Vec<_> = m.iter_halfedges().iter().map(|h| m.halfedge(*h).unwrap()).collect();
    let boundary = m
        .iter_halfedges()
        .into_iter()
        .find(|h| m.is_boundary(*h).unwrap())
        .unwrap();
    assert_eq!(dissolve_edge(&mut m, boundary), Err(MeshError::BoundaryEdgeNotAllowed));
    let inner_with_boundary_twin = m.twin(boundary).unwrap();
    assert_eq!(dissolve_edge(&mut m, inner_with_boundary_twin), Err(MeshError::BoundaryEdgeNotAllowed));
    let after: Vec<_> = m.iter_halfedges().iter().map(|h| m.halfedge(*h).unwrap()).collect();
    assert_eq!(before, after);
    assert_eq!(counts(&m), (6, 14, 2));
}

#[test]
fn dissolve_inner_edge_merges_faces() {
    let mut m = plane();
    let v1 = vertex(&m, 1);
    let v4 = vertex(&m, 4);
    let h = m.halfedge_to(v4, v1).unwrap();
    dissolve_edge(&mut m, h).unwrap();
    assert_eq!(counts(&m), (6, 12, 1));
    assert_eq!(m.face_vertices(face(&m, 0)).unwrap().len(), 6);
    assert!(m.check_invariants());
}

#[test]
fn cut_face_triangle_rejection() {
    let mut m = tetrahedron();
    let v0 = vertex(&m, 0);
    let v2 = vertex(&m, 2);
    assert_eq!(cut_face(&mut m, v0, v2), Err(MeshError::FaceTooSmallToCut));
    assert_eq!(counts(&m), (4, 12, 4));
}

#[test]
fn cut_face_splits_a_quad() {
    let mut m = cube();
    let v0 = vertex(&m, 0);
    let v2 = vertex(&m, 2);
    let h = cut_face(&mut m, v0, v2).unwrap();
    assert_eq!(m.src_dst_pair(h).unwrap(), (v0, v2));
    assert_eq!(counts(&m), (8, 26, 7));
    assert_eq!(m.face_vertices(m.face_of(h).unwrap()).unwrap().len(), 3);
    assert!(m.check_invariants());
    assert_eq!(cut_face(&mut m, v0, v2), Err(MeshError::FaceTooSmallToCut));
}

#[test]
fn cut_face_errors() {
    let mut m = cube();
    let v0 = vertex(&m, 0);
    let v1 = vertex(&m, 1);
    let v6 = vertex(&m, 6);
    assert_eq!(cut_face(&mut m, v0, v6), Err(MeshError::VerticesShareNoFace));
    assert_eq!(cut_face(&mut m, v0, v1), Err(MeshError::VerticesAlreadyConnected));
}

#[test]
fn duplicate_edge_cross_twins() {
    let mut m = cube();
    let v0 = vertex(&m, 0);
    let v1 = vertex(&m, 1);
    let h = m.halfedge_to(v0, v1).unwrap();
    let t = m.twin(h).unwrap();
    let d = duplicate_edge(&mut m, h).unwrap();
    let d2 = m.next(d).unwrap();
    assert_eq!(m.next(d2).unwrap(), d);
    assert_eq!(m.twin(d).unwrap(), t);
    assert_eq!(m.twin(t).unwrap(), d);
    assert_eq!(m.twin(h).unwrap(), d2);
    assert_eq!(m.src_dst_pair(d).unwrap(), (v0, v1));
    assert_eq!(counts(&m), (8, 26, 7));
    assert!(m.check_twins());
}

#[test]
fn collapse_edge_merges_end_into_start() {
    let mut m = cube();
    let v0 = vertex(&m, 0);
    let v1 = vertex(&m, 1);
    let h = m.halfedge_to(v0, v1).unwrap();
    assert_eq!(collapse_edge(&mut m, h), Ok(v0));
    assert!(!m.contains_vertex(v1));
    assert_eq!(counts(&m), (7, 22, 6));
    assert_eq!(sorted_face_sizes(&m), vec![3, 3, 4, 4, 4, 4]);
    assert!(m.check_twins());
}

#[test]
fn dissolve_vertex_of_cube_corner() {
    let mut m = cube();
    let corner = vertex(&m, 0);
    let f = dissolve_vertex(&mut m, corner).unwrap();
    assert!(!m.contains_vertex(corner));
    assert_eq!(m.face_vertices(f).unwrap().len(), 6);
    assert_eq!(counts(&m), (7, 18, 4));
    assert!(m.check_invariants());
}

#[test]
fn dissolve_isolated_vertex_error() {
    let positions = vec![[0.0, 0.0, 0.0]];
    let mut m: HalfEdgeMesh<P> = from_polygons(&positions, &vec![]).unwrap();
    let v = vertex(&m, 0);
    assert_eq!(dissolve_vertex(&mut m, v), Err(MeshError::IsolatedVertex));
}

#[test]
fn split_vertex_of_cube_corner() {
    let mut m = cube();
    let v0 = vertex(&m, 0);
    let v1 = vertex(&m, 1);
    let v3 = vertex(&m, 3);
    let w = split_vertex(&mut m, v0, v1, v3, [0.0, -0.5, 0.0]).unwrap();
    assert_eq!(m.vertex_position(w).unwrap(), [0.0, -0.5, 0.0]);
    assert!(m.halfedge_to(v0, w).is_ok());
    assert_eq!(counts(&m), (9, 30, 8));
    assert!(m.check_twins());
    let v6 = vertex(&m, 6);
    assert_eq!(
        split_vertex(&mut m, v0, v6, v3, [0.0, 0.0, 0.0]),
        Err(MeshError::HalfedgeFromToNotFound(v0, v6))
    );
}

#[test]
fn split_edge_of_cube() {
    let mut m = cube();
    let v0 = vertex(&m, 0);
    let v1 = vertex(&m, 1);
    let h = m.halfedge_to(v0, v1).unwrap();
    let e = split_edge(&mut m, h, |p: P| [p[0], p[1], p[2] - 0.5]).unwrap();
    assert!(m.contains_halfedge(e));
    assert_eq!(counts(&m).0, 10);
    assert!(m.check_twins());
}

#[test]
fn traversal_errors() {
    let mut m = tetrahedron();
    let v0 = vertex(&m, 0);
    let v1 = vertex(&m, 1);
    let h = m.halfedge_to(v0, v1).unwrap();
    let prev = m.previous(h).unwrap();
    assert_eq!(m.next(prev).unwrap(), h);
    assert_eq!(m.outgoing_halfedges(v0).unwrap().len(), 3);
    assert_eq!(m.incoming_halfedges(v0).unwrap().len(), 3);
    assert_eq!(m.face_halfedges(m.face_of(h).unwrap()).unwrap().len(), 3);
    m.remove_halfedge(h);
    assert_eq!(m.next(h), Err(MeshError::StaleHandle));
    assert_eq!(m.next(prev), Err(MeshError::StaleHandle));
    let t = m.iter_halfedges()[0];
    let x = m.halfedge(t).unwrap();
    m.write_halfedge(t, halfedge_mesh::HalfEdge { twin: None, next: None, ..x });
    assert_eq!(m.twin(t), Err(MeshError::MissingTwin));
    assert_eq!(m.next(t), Err(MeshError::MissingNext));
}

#[test]
fn walk_that_never_returns_is_cycle_exceeded() {
    let mut m = tetrahedron();
    let hs = m.iter_halfedges();
    // Send one loop into a cycle that does not pass through its start.
    let a = hs[0];
    let b = m.next(a).unwrap();
    let c = m.next(b).unwrap();
    let xc = m.halfedge(c).unwrap();
    m.write_halfedge(c, halfedge_mesh::HalfEdge { next: Some(b), ..xc });
    assert_eq!(m.previous(a), Err(MeshError::CycleExceeded));
    assert!(!m.check_faces());
}

#[test]
fn stale_handles_are_rejected_after_removal() {
    let mut m = cube();
    let v = vertex(&m, 0);
    m.remove_vertex(v);
    assert_eq!(m.vertex_position(v), Err(MeshError::StaleHandle));
    let w = m.alloc_vertex([9.0, 9.0, 9.0], None);
    assert_ne!(w, v);
    assert_eq!(m.vertex_position(v), Err(MeshError::StaleHandle));
    assert_eq!(m.vertex_position(w).unwrap(), [9.0, 9.0, 9.0]);
}

#[test]
fn polygon_with_bad_index_is_rejected() {
    let positions = vec![[0.0, 0.0, 0.0], [1.0, 0.0, 0.0], [0.0, 1.0, 0.0]];
    let r: Result<HalfEdgeMesh<P>, MeshError> = from_polygons(&positions, &vec![vec![0, 1, 7]]);
    assert!(matches!(r, Err(MeshError::StaleHandle)));
}

#[test]
fn add_face_reuses_recorded_sides_and_links_twins() {
    let mut m: HalfEdgeMesh<P> = HalfEdgeMesh::new();
    let a = m.alloc_vertex([0.0, 0.0, 0.0], None);
    let b = m.alloc_vertex([1.0, 0.0, 0.0], None);
    let c = m.alloc_vertex([0.0, 1.0, 0.0], None);
    let d = m.alloc_vertex([1.0, 1.0, 0.0], None);
    let mut pairs = PairMap::new();
    let f1 = add_face(&mut m, &vec![a, b, c], &mut pairs).unwrap();
    assert_eq!(counts(&m), (4, 3, 1));
    let ab = pairs.get(a, b).unwrap();
    assert_eq!(m.face_of(ab).unwrap(), f1);
    assert_eq!(m.src_vertex(ab).unwrap(), a);
    assert!(m.halfedge(ab).unwrap().twin.is_none());
    let f2 = add_face(&mut m, &vec![b, d, c], &mut pairs).unwrap();
    assert_eq!(counts(&m), (4, 6, 2));
    let bc = pairs.get(b, c).unwrap();
    let cb = pairs.get(c, b).unwrap();
    assert_eq!(m.twin(bc).unwrap(), cb);
    assert_eq!(m.twin(cb).unwrap(), bc);
    assert_eq!(m.face_of(cb).unwrap(), f2);
    assert_eq!(m.face_vertices(f2).unwrap(), vec![b, d, c]);
    assert!(pairs.get(d, a).is_none());
    // Sides already recorded, (a, b) and (b, d), are reused and moved to
    // the new face; only (d, a) is new.
    let f3 = add_face(&mut m, &vec![a, b, d], &mut pairs).unwrap();
    assert_eq!(pairs.get(a, b).unwrap(), ab);
    assert_eq!(m.face_of(ab).unwrap(), f3);
    assert_eq!(counts(&m), (4, 7, 3));
}

#[test]
fn add_face_with_stale_vertex_is_rejected() {
    let mut m: HalfEdgeMesh<P> = HalfEdgeMesh::new();
    let a = m.alloc_vertex([0.0, 0.0, 0.0], None);
    let b = m.alloc_vertex([1.0, 0.0, 0.0], None);
    let c = m.alloc_vertex([0.0, 1.0, 0.0], None);
    m.remove_vertex(c);
    let mut pairs = PairMap::new();
    assert_eq!(add_face(&mut m, &vec![a, b, c], &mut pairs), Err(MeshError::StaleHandle));
    assert_eq!(counts(&m), (2, 0, 0));
}

#[test]
fn bevel_pulls_point_along_neighbouring_edges() {
    let m = cube();
    let v0 = vertex(&m, 0);
    let v1 = vertex(&m, 1);
    let h = m.halfedge_to(v0, v1).unwrap();
    let prev_start = m.src_vertex(m.previous(h).unwrap()).unwrap();
    let after_end = m.src_vertex(m.next(m.next(h).unwrap()).unwrap()).unwrap();
    let pulls = bevel_pulls(&m, &vec![h]).unwrap();
    assert_eq!(pulls, vec![(v0, prev_start), (v1, after_end)]);
    assert_ne!(prev_start, v1);
    assert_ne!(after_end, v0);
}

#[test]
fn silhouette_of_two_adjacent_faces() {
    let m = cube();
    let bottom = face(&m, 0);
    let front = face(&m, 2);
    let sil = silhouette(&m, &vec![bottom, front]).unwrap();
    // Two quads sharing one edge: six sides face the rest of the cube.
    assert_eq!(sil.len(), 6);
    for h in sil {
        let tf = m.face_of(m.twin(h).unwrap()).unwrap();
        assert!(tf != bottom && tf != front);
    }
    assert_eq!(silhouette(&m, &vec![bottom]).unwrap().len(), 4);
}

#[test]
fn extrude_faces_pushes_pair_vertices_with_their_faces() {
    let mut m = cube();
    let top = face(&m, 1);
    let pushes = extrude_faces_connectivity(&mut m, &vec![top]).unwrap();
    assert_eq!(pushes.len(), 8);
    for (v, f) in &pushes {
        assert_eq!(*f, top);
        assert!(m.contains_vertex(*v));
    }
    assert!(m.check_twins());
    assert_eq!(m.face_vertices(top).unwrap().len(), 4);
}

#[test]
fn update_vertex_position_moves_only_live_vertices() {
    let mut m = tetrahedron();
    let v = vertex(&m, 3);
    m.update_vertex_position(v, [0.0, 0.0, 2.0]).unwrap();
    assert_eq!(m.vertex_position(v).unwrap(), [0.0, 0.0, 2.0]);
    m.remove_vertex(v);
    assert_eq!(m.update_vertex_position(v, [1.0, 1.0, 1.0]), Err(MeshError::StaleHandle));
}

#[test]
fn merge_rule_for_consecutive_chamfer_vertices() {
    // (beveled, duplicated) of one outgoing half-edge, then of the next.
    assert!(merges(true, false, false, false));
    assert!(merges(false, true, true, false));
    assert!(merges(false, true, false, false));
    assert!(merges(false, false, true, false));
    assert!(!merges(true, false, true, false));
    assert!(!merges(true, false, false, true));
    assert!(!merges(false, false, false, false));
    assert!(!merges(false, false, false, true));
    assert!(!merges(false, true, false, true));
}

#[test]
fn duplicate_edge_repeats_a_directed_pair() {
    let mut m = cube();
    assert!(m.check_unique_pairs());
    let v0 = vertex(&m, 0);
    let v1 = vertex(&m, 1);
    let h = m.halfedge_to(v0, v1).unwrap();
    duplicate_edge(&mut m, h).unwrap();
    // The two-sided face runs along the same vertices as the edge.
    assert!(!m.check_unique_pairs());
    assert!(m.check_twins());
    assert!(m.check_faces());
}

#[test]
fn split_vertex_on_boundary_adds_no_triangle() {
    let mut m = plane();
    let v1 = vertex(&m, 1);
    let v0 = vertex(&m, 0);
    let v2 = vertex(&m, 2);
    // Both the side towards v2 and the side from v0 lie on the boundary.
    assert!(m.is_boundary(m.halfedge_to(v1, v2).unwrap()).unwrap());
    assert!(m.is_boundary(m.halfedge_to(v0, v1).unwrap()).unwrap());
    let w = split_vertex(&mut m, v1, v2, v0, [1.0, 0.0, -0.5]).unwrap();
    assert!(m.contains_vertex(w));
    assert_eq!(counts(&m).0, 7);
    assert_eq!(counts(&m).2, 2);
    assert!(m.check_twins());
}

#[test]
fn boundary_loop_links_where_each_side_ends() {
    let m = plane();
    let mut boundary = 0;
    for h in m.iter_halfedges() {
        if m.is_boundary(h).unwrap() {
            boundary += 1;
            let n = m.next(h).unwrap();
            assert!(m.is_boundary(n).unwrap());
            assert_eq!(m.src_vertex(n).unwrap(), m.dst_vertex(h).unwrap());
        }
    }
    assert_eq!(boundary, 6);
}

#[test]
fn polygons_become_faces_with_their_rings() {
    let m = tetrahedron();
    let vs = m.iter_vertices();
    let faces = m.iter_faces();
    assert_eq!(m.face_vertices(faces[0]).unwrap(), vec![vs[0], vs[2], vs[1]]);
    assert_eq!(m.face_vertices(faces[3]).unwrap(), vec![vs[2], vs[0], vs[3]]);
    for (i, v) in vs.iter().enumerate() {
        let expected: [[f32; 3]; 4] = [[0.0, 0.0, 0.0], [1.0, 0.0, 0.0], [0.0, 1.0, 0.0], [0.0, 0.0, 1.0]];
        assert_eq!(m.vertex_position(*v).unwrap(), expected[i]);
    }
}

#[test]
fn bevel_of_edge_given_twice_matches_bevel_of_edge_once() {
    let mut a = cube();
    let mut b = cube();
    let v0 = vertex(&a, 0);
    let v1 = vertex(&a, 1);
    let h = a.halfedge_to(v0, v1).unwrap();
    let t = a.twin(h).unwrap();
    let ra = bevel_edges_connectivity(&mut a, &vec![h]).unwrap();
    let rb = bevel_edges_connectivity(&mut b, &vec![h, t, h]).unwrap();
    assert_eq!(ra, rb);
    assert_eq!(counts(&a), counts(&b));
    assert_eq!(sorted_face_sizes(&a), sorted_face_sizes(&b));
    assert!(a.check_twins() && b.check_twins());
}
