use halfedge::{HalfEdge, Mesh};

fn square() -> Mesh<[f64; 3]> {
    let points: Vec<[f64; 3]> = vec![
        [0.0, 1.0, 0.0],
        [1.0, 1.0, 0.0],
        [0.0, 0.0, 0.0],
        [1.0, 0.0, 0.0],
    ];
    let faces = vec![vec![0, 2, 3], vec![0, 3, 1]];
    Mesh::from_verts_faces(points, faces)
}

/// mesh with a single face that have 5 edges
fn pentagon() -> Mesh<[f64; 3]> {
    let points: Vec<[f64; 3]> = vec![
        [0.0, 0.0, 0.0],
        [0.5, -0.5, 0.0],
        [1.0, 0.0, 0.0],
        [1.0, 1.0, 0.0],
        [0.0, 1.0, 0.0],
    ];
    let faces = vec![vec![0, 1, 2, 3, 4]];

    let mesh = Mesh::from_verts_faces(points, faces);
    assert_eq!(mesh.faces().len(), 1);
    assert_eq!(mesh.face_edge_count()[0], 5);
    mesh
}

#[test]
fn from_verts_faces() {
    let mesh = square();
    let expected_edges: Vec<HalfEdge> = vec![
        [1 - 1, 6, 0, 1, 2].into(),
        [3 - 1, 7, 0, 2, 0].into(),
        [4 - 1, 3, 0, 0, 1].into(),
        [1 - 1, 2, 1, 4, 5].into(),
        [4 - 1, 8, 1, 5, 3].into(),
        [2 - 1, 9, 1, 3, 4].into(),
        [3 - 1, 0, u32::MAX, 9, 7].into(),
        [4 - 1, 1, u32::MAX, 6, 8].into(),
        [2 - 1, 4, u32::MAX, 7, 9].into(),
        [1 - 1, 5, u32::MAX, 8, 6].into(),
    ];
    println!("{}", mesh.pretty_edges());

    let edges = mesh.half_edges();

    for (expected, edge) in expected_edges.iter().zip(edges) {
        assert_eq!(expected, edge);
        println!("ok edge: {}", edge.pretty_data());
    }
}

#[test]
fn flip_square() {
    let mut mesh = square();
    mesh.flip_edge(3);
    let edges = mesh.half_edges();
    let expected_edges: Vec<HalfEdge> = vec![
        [1 - 1, 6, 0, 3, 5].into(),
        [3 - 1, 7, 0, 4, 2].into(),
        [2 - 1, 3, 0, 1, 4].into(),
        [3 - 1, 2, 1, 5, 0].into(),
        [4 - 1, 8, 1, 2, 1].into(),
        [2 - 1, 9, 1, 0, 3].into(),
        [3 - 1, 0, u32::MAX, 9, 7].into(),
        [4 - 1, 1, u32::MAX, 6, 8].into(),
        [2 - 1, 4, u32::MAX, 7, 9].into(),
        [1 - 1, 5, u32::MAX, 8, 6].into(),
    ];
    for (expected, edge) in expected_edges.iter().zip(edges) {
        assert_eq!(expected, edge);
        println!("{}", edge.pretty_data());
    }
}

#[test]
fn test_concave_triangulate_pentagon() {
    let mut mesh = pentagon();
    println!("pre: {}", mesh.pretty_edges());
    mesh.concave_triangulate();
    println!("post: {}", mesh.pretty_edges());
    let expected: Vec<usize> = vec![3, 3, 3];
    let res: Vec<_> = mesh.face_edge_count();
    assert_eq!(expected, res);
}
