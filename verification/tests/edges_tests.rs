use halfedge::edges::unique_tri_edges;

#[test]
fn shared_edges_listed_once() {
    let indices = vec![0, 1, 2, 0, 2, 3, 7];
    assert_eq!(unique_tri_edges(&indices), vec![(0, 1), (1, 2), (0, 2), (2, 3), (0, 3)]);
}

#[test]
fn no_full_triangle_no_edges() {
    assert_eq!(unique_tri_edges(&vec![4, 5]), Vec::<(u32, u32)>::new());
}
