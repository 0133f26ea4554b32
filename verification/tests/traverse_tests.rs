use halfedge::Mesh;

fn square() -> Mesh<[f64; 3]> {
    let points: Vec<[f64; 3]> = vec![
        [0.0, 1.0, 0.0],
        [1.0, 1.0, 0.0],
        [0.0, 0.0, 0.0],
        [1.0, 0.0, 0.0],
    ];
    Mesh::from_verts_faces(points, vec![vec![0, 2, 3], vec![0, 3, 1]])
}

#[test]
fn traverser_moves_along_links() {
    let mesh = square();
    let mut t = mesh.get_traverser(0);
    assert_eq!(t.get_id(), 0);
    assert_eq!(t.next().get_id(), 1);
    assert_eq!(t.next().next().get_id(), 0);
    assert_eq!(t.prev().get_id(), 2);
    assert_eq!(t.twin().get_id(), 3);
    assert_eq!(t.get_edge().origin, 0);
    let c = t.clone();
    assert_eq!(c.get_id(), 3);
}

#[test]
fn face_edges_visit_the_face_ending_at_its_start() {
    let mesh = square();
    let mut it = mesh.face_edges(1);
    let mut seen = Vec::new();
    while let Some(e) = it.next() {
        seen.push(e.origin);
    }
    assert_eq!(seen, vec![3, 1, 0]);
    assert!(it.next().is_none());
}

#[test]
fn vertex_edges_circle_the_vertex() {
    let mesh = square();
    let mut it = mesh.vertex_edges(0);
    let mut seen = Vec::new();
    while let Some(e) = it.next() {
        seen.push(*e);
    }
    let es = mesh.half_edges();
    assert_eq!(seen, vec![es[9], es[0], es[3]]);
    assert!(seen.iter().all(|e| e.origin == 0));
}

#[test]
fn face_and_triangle_indices() {
    let mesh = square();
    assert_eq!(mesh.face_inds(), vec![vec![2, 3, 0], vec![3, 1, 0]]);
    assert_eq!(mesh.tri_inds(), vec![vec![2, 3, 0], vec![3, 1, 0]]);
    assert_eq!(mesh.face_edge_count(), vec![3, 3]);
}

#[test]
fn tri_inds_take_three_corners() {
    let points: Vec<[f64; 3]> = vec![[0.0; 3]; 5];
    let mesh = Mesh::from_verts_faces(points, vec![vec![0, 1, 2, 3, 4]]);
    assert_eq!(mesh.face_inds(), vec![vec![1, 2, 3, 4, 0]]);
    assert_eq!(mesh.tri_inds(), vec![vec![1, 2, 3]]);
}
