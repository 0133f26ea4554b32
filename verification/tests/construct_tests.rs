use halfedge::{HalfEdge, Mesh};

fn square_points() -> Vec<[f64; 3]> {
    vec![
        [0.0, 1.0, 0.0],
        [1.0, 1.0, 0.0],
        [0.0, 0.0, 0.0],
        [1.0, 0.0, 0.0],
    ]
}

fn cube_corners() -> Vec<[f64; 3]> {
    vec![
        [0.0, 0.0, 0.0],
        [1.0, 0.0, 0.0],
        [1.0, 1.0, 0.0],
        [0.0, 1.0, 0.0],
        [0.0, 0.0, 1.0],
        [1.0, 0.0, 1.0],
        [1.0, 1.0, 1.0],
        [0.0, 1.0, 1.0],
    ]
}

/// Checks the half-edge invariants at run time: indices in range, next and
/// prev inverse, twins paired and running the other way.
fn assert_well_formed<P>(mesh: &Mesh<P>) {
    let es = mesh.half_edges();
    let n = es.len();
    for (i, e) in es.iter().enumerate() {
        assert!((e.next as usize) < n && (e.prev as usize) < n);
        assert_eq!(es[e.next as usize].prev as usize, i);
        assert_eq!(es[e.prev as usize].next as usize, i);
        let t = e.twin.expect("every half edge has a twin") as usize;
        assert!(t < n && t != i);
        assert_eq!(es[t].twin, Some(i as u32));
        assert_eq!(es[t].origin, es[e.next as usize].origin);
        assert_eq!(es[e.next as usize].face, e.face);
        assert!((e.origin as usize) < mesh.verts().len());
        let h = mesh.verts()[e.origin as usize].half_edge as usize;
        assert_eq!(es[h].origin, e.origin);
    }
    for (f, start) in mesh.faces().iter().enumerate() {
        assert_eq!(es[*start as usize].face, Some(f as u32));
    }
}

#[test]
fn half_edge_new_keeps_fields() {
    let h = HalfEdge::new(4, Some(7), None, 2, 9);
    assert_eq!(h.origin, 4);
    assert_eq!(h.twin, Some(7));
    assert_eq!(h.face, None);
    assert_eq!(h.next, 2);
    assert_eq!(h.prev, 9);
}

#[test]
fn half_edge_from_array() {
    let h: HalfEdge = [1, 2, 3, 4, 5].into();
    assert_eq!(h, HalfEdge::new(1, Some(2), Some(3), 4, 5));
    let b: HalfEdge = [1, 2, u32::MAX, 4, 5].into();
    assert_eq!(b, HalfEdge::new(1, Some(2), None, 4, 5));
}

#[test]
fn square_vertices_point_at_last_leaving_edge() {
    let mesh = Mesh::from_verts_faces(square_points(), vec![vec![0, 2, 3], vec![0, 3, 1]]);
    let hs: Vec<u32> = mesh.verts().iter().map(|v| v.half_edge).collect();
    assert_eq!(hs, vec![3, 5, 1, 4]);
    assert_eq!(mesh.faces(), &vec![0, 3]);
    assert_eq!(mesh.verts()[1].coord, [1.0, 1.0, 0.0]);
    assert_well_formed(&mesh);
}

#[test]
fn square_with_border_is_well_formed() {
    let mesh = Mesh::from_verts_faces(square_points(), vec![vec![0, 2, 3], vec![0, 3, 1]]);
    assert_eq!(mesh.half_edges().len(), 10);
    let border: Vec<usize> = (0..10).filter(|i| mesh.half_edges()[*i].face.is_none()).collect();
    assert_eq!(border, vec![6, 7, 8, 9]);
    assert_well_formed(&mesh);
}

#[test]
fn unit_cube_is_closed() {
    let mesh = Mesh::unit_cube(cube_corners());
    assert_eq!(mesh.half_edges().len(), 24);
    assert_eq!(mesh.faces(), &vec![0, 4, 8, 12, 16, 20]);
    assert!(mesh.half_edges().iter().all(|e| e.face.is_some()));
    let hs: Vec<u32> = mesh.verts().iter().map(|v| v.half_edge).collect();
    assert_eq!(hs, vec![17, 8, 12, 16, 20, 21, 22, 23]);
    assert_eq!(mesh.face_edge_count(), vec![4, 4, 4, 4, 4, 4]);
    assert_eq!(
        mesh.face_inds(),
        vec![
            vec![2, 1, 0, 3],
            vec![1, 5, 4, 0],
            vec![2, 6, 5, 1],
            vec![3, 7, 6, 2],
            vec![0, 4, 7, 3],
            vec![5, 6, 7, 4],
        ]
    );
    assert_well_formed(&mesh);
}

#[test]
fn try_from_verts_faces_agrees_where_it_applies() {
    let faces = vec![vec![0, 2, 3], vec![0, 3, 1]];
    let a = Mesh::from_verts_faces(square_points(), faces.clone());
    let b = Mesh::try_from_verts_faces(square_points(), faces).expect("square builds");
    assert_eq!(a.half_edges(), b.half_edges());
    assert_eq!(a.faces(), b.faces());
}

#[test]
fn try_from_verts_faces_refuses_empty_polygon() {
    let r = Mesh::try_from_verts_faces(square_points(), vec![vec![0, 2, 3], vec![]]);
    assert!(r.is_none());
}

#[test]
fn try_from_verts_faces_refuses_missing_vertex() {
    let points: Vec<[f64; 3]> = vec![
        [0.0, 0.0, 0.0],
        [1.0, 0.0, 0.0],
        [0.2, 0.2, 0.0],
        [0.0, 1.0, 0.0],
    ];
    let r = Mesh::try_from_verts_faces(points, vec![vec![0, 1, 2, 3, 4]]);
    assert!(r.is_none());
}

#[test]
fn try_from_verts_faces_refuses_open_border() {
    let points: Vec<[f64; 3]> = vec![[0.0; 3], [1.0; 3], [2.0; 3], [3.0; 3]];
    let r = Mesh::try_from_verts_faces(points, vec![vec![3, 2, 1], vec![3, 2, 0], vec![3, 1, 2]]);
    assert!(r.is_none());
}

#[test]
fn well_formed_test_follows_the_edits() {
    let mut mesh = Mesh::from_verts_faces(square_points(), vec![vec![0, 2, 3], vec![0, 3, 1]]);
    assert!(mesh.is_well_formed());
    assert!(mesh.has_closing_faces());
    let mut flipped = mesh.clone();
    flipped.flip_edge(3);
    // the flipped half edges keep their old face labels
    assert!(!flipped.is_well_formed());
    assert!(flipped.has_closing_faces());
    let mut split = mesh.clone();
    split.split_edge(3, [0.5, 0.5, 0.0]);
    // the half edges after the split still name the old edges as prev, but
    // the faces can still be walked round
    assert!(!split.is_well_formed());
    assert!(split.has_closing_faces());
    assert_eq!(split.face_edge_count(), vec![4, 4]);
    mesh.orphan_edge(3);
    assert!(mesh.is_well_formed());
}

#[test]
fn well_formed_test_rejects_broken_meshes() {
    let mesh = Mesh::from_verts_faces(square_points(), vec![vec![0, 2, 3], vec![0, 3, 1]]);
    let mut bad_index = mesh.clone();
    bad_index.half_edges[0].next = 99;
    assert!(!bad_index.is_well_formed());
    assert!(!bad_index.has_closing_faces());
    let mut open_face = mesh.clone();
    open_face.half_edges[2].next = 4;
    assert!(!open_face.has_closing_faces());
    let mut bad_twin = mesh.clone();
    bad_twin.half_edges[0].twin = Some(1);
    assert!(!bad_twin.is_well_formed());
    assert!(bad_twin.has_closing_faces());
    let mut bad_vertex = mesh.clone();
    bad_vertex.verts[0].half_edge = 1;
    assert!(!bad_vertex.is_well_formed());
    let mut bad_face = mesh;
    bad_face.faces[1] = 0;
    assert!(!bad_face.is_well_formed());
}

#[test]
fn grid_with_border_is_well_formed_and_reads_back() {
    let points: Vec<[f64; 3]> = (0..9).map(|i| [(i % 3) as f64, (i / 3) as f64, 0.0]).collect();
    let faces = vec![vec![0, 1, 4, 3], vec![1, 2, 5, 4], vec![3, 4, 7, 6], vec![4, 5, 8, 7]];
    let mesh = Mesh::from_verts_faces(points, faces.clone());
    assert_eq!(mesh.half_edges().len(), 16 + 8);
    assert!(mesh.is_well_formed());
    assert_well_formed(&mesh);
    let rotated: Vec<Vec<u32>> = faces
        .iter()
        .map(|f| f[1..].iter().chain(f[..1].iter()).copied().collect())
        .collect();
    assert_eq!(mesh.face_inds(), rotated);
    assert_eq!(mesh.face_edge_count(), vec![4, 4, 4, 4]);
}
