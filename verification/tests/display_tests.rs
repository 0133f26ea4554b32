use halfedge::{op_id2string, HalfEdge, Mesh};

fn square() -> Mesh<[f64; 3]> {
    let points: Vec<[f64; 3]> = vec![
        [0.0, 1.0, 0.0],
        [1.0, 1.0, 0.0],
        [0.0, 0.0, 0.0],
        [1.0, 0.0, 0.0],
    ];
    Mesh::from_verts_faces(points, vec![vec![0, 2, 3], vec![0, 3, 1]])
}

#[test]
fn optional_ids_as_text() {
    assert_eq!(op_id2string(Some(0)), "0");
    assert_eq!(op_id2string(Some(1207)), "1207");
    assert_eq!(op_id2string(Some(u32::MAX)), "4294967295");
    assert_eq!(op_id2string(None), "-");
}

#[test]
fn half_edge_rows() {
    assert_eq!(HalfEdge::pretty_header(), "origin\ttwin\tface\tnext\tprev");
    let h = HalfEdge::new(0, Some(6), Some(0), 1, 2);
    assert_eq!(h.pretty_data(), "1\t6\t0\t1\t2");
    let b = HalfEdge::new(9, Some(10), None, 11, 12);
    assert_eq!(b.pretty_data(), "10\t10\t-\t11\t12");
}

#[test]
fn mesh_edge_table() {
    let mesh = square();
    let expected = "id\torigin\ttwin\tface\tnext\tprev\n\
        0\t1\t6\t0\t1\t2\n\
        1\t3\t7\t0\t2\t0\n\
        2\t4\t3\t0\t0\t1\n\
        3\t1\t2\t1\t4\t5\n\
        4\t4\t8\t1\t5\t3\n\
        5\t2\t9\t1\t3\t4\n\
        6\t3\t0\t-\t9\t7\n\
        7\t4\t1\t-\t6\t8\n\
        8\t2\t4\t-\t7\t9\n\
        9\t1\t5\t-\t8\t6\n";
    assert_eq!(mesh.pretty_edges(), expected);
}

#[test]
fn mesh_face_tables() {
    let mesh = square();
    assert_eq!(mesh.pretty_faces(), "id\tedge\n0\t0\n1\t3\n");
    assert_eq!(mesh.pretty_face_vecs(), "f0: 2 3 0\nf1: 3 1 0\n");
}
