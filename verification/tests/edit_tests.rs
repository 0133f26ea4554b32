use halfedge::{HalfEdge, Mesh, Midpoint};

#[derive(Clone, Copy, Debug, PartialEq)]
struct Pt {
    x: f64,
    y: f64,
}

impl Midpoint for Pt {
    fn midpoint(&self, other: &Self) -> Self {
        Pt { x: (self.x + other.x) / 2.0, y: (self.y + other.y) / 2.0 }
    }
}

fn square() -> Mesh<Pt> {
    let points = vec![
        Pt { x: 0.0, y: 1.0 },
        Pt { x: 1.0, y: 1.0 },
        Pt { x: 0.0, y: 0.0 },
        Pt { x: 1.0, y: 0.0 },
    ];
    Mesh::from_verts_faces(points, vec![vec![0, 2, 3], vec![0, 3, 1]])
}

fn polygon(n: u32) -> Mesh<Pt> {
    let points = (0..n).map(|i| Pt { x: i as f64, y: 0.0 }).collect();
    Mesh::from_verts_faces(points, vec![(0..n).collect()])
}

fn assert_links<P>(mesh: &Mesh<P>) {
    let es = mesh.half_edges();
    for (i, e) in es.iter().enumerate() {
        assert_eq!(es[e.next as usize].prev as usize, i);
        assert_eq!(es[e.prev as usize].next as usize, i);
        let t = e.twin.unwrap() as usize;
        assert_eq!(es[t].twin, Some(i as u32));
        assert_eq!(es[t].origin, es[e.next as usize].origin);
    }
}

#[test]
fn orphan_edge_cuts_off_a_triangle() {
    let mut mesh = polygon(5);
    mesh.orphan_edge(3);
    let expected: Vec<HalfEdge> = vec![
        HalfEdge::new(0, Some(5), Some(0), 1, 4),
        HalfEdge::new(1, Some(6), Some(0), 11, 0),
        HalfEdge::new(2, Some(7), Some(1), 3, 10),
        HalfEdge::new(3, Some(8), Some(1), 10, 2),
        HalfEdge::new(4, Some(9), Some(0), 0, 11),
        HalfEdge::new(1, Some(0), None, 9, 6),
        HalfEdge::new(2, Some(1), None, 5, 7),
        HalfEdge::new(3, Some(2), None, 6, 8),
        HalfEdge::new(4, Some(3), None, 7, 9),
        HalfEdge::new(0, Some(4), None, 8, 5),
        HalfEdge::new(4, Some(11), Some(1), 2, 3),
        HalfEdge::new(2, Some(10), Some(0), 4, 1),
    ];
    assert_eq!(mesh.half_edges(), &expected);
    assert_eq!(mesh.faces(), &vec![4, 3]);
    assert_eq!(mesh.face_inds(), vec![vec![0, 1, 2, 4], vec![4, 2, 3]]);
    assert_links(&mesh);
}

#[test]
fn concave_triangulate_face_fans_a_hexagon() {
    let mut mesh = polygon(6);
    mesh.concave_triangulate_face(0);
    assert_eq!(mesh.face_edge_count(), vec![3, 3, 3, 3]);
    assert_eq!(
        mesh.face_inds(),
        vec![vec![1, 2, 0], vec![4, 2, 3], vec![5, 2, 4], vec![0, 2, 5]]
    );
    assert_links(&mesh);
}

#[test]
fn concave_triangulate_face_leaves_triangles() {
    let mut mesh = square();
    let before = mesh.half_edges().clone();
    mesh.concave_triangulate_face(1);
    assert_eq!(mesh.half_edges(), &before);
}

#[test]
fn concave_triangulate_cube() {
    let corners: Vec<Pt> = (0..8).map(|i| Pt { x: i as f64, y: 0.0 }).collect();
    let mut mesh = Mesh::unit_cube(corners);
    mesh.concave_triangulate();
    assert_eq!(mesh.face_edge_count(), vec![3; 12]);
    assert_eq!(
        mesh.face_inds(),
        vec![
            vec![2, 1, 3],
            vec![1, 5, 0],
            vec![2, 6, 1],
            vec![3, 7, 2],
            vec![0, 4, 3],
            vec![5, 6, 4],
            vec![3, 1, 0],
            vec![0, 5, 4],
            vec![1, 6, 5],
            vec![2, 7, 6],
            vec![3, 4, 7],
            vec![4, 6, 7],
        ]
    );
    assert_links(&mesh);
}

#[test]
fn flip_keeps_two_triangles() {
    let mut mesh = square();
    mesh.flip_edge(3);
    assert_eq!(mesh.faces(), &vec![0, 4]);
    assert_eq!(mesh.face_edge_count(), vec![3, 3]);
    assert_eq!(mesh.face_inds(), vec![vec![2, 1, 0], vec![1, 2, 3]]);
    assert_links(&mesh);
}

#[test]
fn split_edge_adds_a_side_to_both_faces() {
    let mut mesh = square();
    mesh.split_edge(3, Pt { x: 0.5, y: 0.5 });
    let es = mesh.half_edges();
    assert_eq!(es.len(), 12);
    assert_eq!(es[10], HalfEdge::new(4, Some(2), Some(1), 4, 3));
    assert_eq!(es[11], HalfEdge::new(4, Some(3), Some(0), 0, 2));
    assert_eq!(es[3].next, 10);
    assert_eq!(es[2].next, 11);
    assert_eq!(mesh.verts().len(), 5);
    assert_eq!(mesh.verts()[4].half_edge, 10);
    assert_eq!(mesh.verts()[4].coord, Pt { x: 0.5, y: 0.5 });
    assert_eq!(mesh.face_edge_count(), vec![4, 4]);
    assert_eq!(mesh.face_inds(), vec![vec![2, 3, 4, 0], vec![4, 3, 1, 0]]);
}

#[test]
fn divide_edge_splits_at_the_midpoint() {
    let mut mesh = square();
    mesh.divide_edge(3);
    assert_eq!(mesh.verts()[4].coord, Pt { x: 0.5, y: 0.5 });
    assert_eq!(mesh.half_edges()[10], HalfEdge::new(4, Some(2), Some(1), 4, 3));
    assert_eq!(mesh.face_edge_count(), vec![4, 4]);
}

#[test]
fn concave_triangulate_face_after_split() {
    // the split leaves prev pointers stale, but each face still closes
    let mut mesh = square();
    mesh.split_edge(3, Pt { x: 0.5, y: 0.5 });
    assert!(mesh.has_closing_faces());
    mesh.concave_triangulate_face(0);
    assert_eq!(mesh.faces(), &vec![0, 3, 11]);
    assert_eq!(mesh.face_edge_count(), vec![3, 4, 3]);
    assert_eq!(mesh.face_inds(), vec![vec![2, 3, 0], vec![4, 3, 1, 0], vec![0, 3, 4]]);
}

#[test]
fn concave_triangulate_is_idempotent() {
    let corners: Vec<Pt> = (0..8).map(|i| Pt { x: i as f64, y: 0.0 }).collect();
    let mut mesh = Mesh::unit_cube(corners);
    mesh.concave_triangulate();
    let once = mesh.clone();
    mesh.concave_triangulate();
    assert_eq!(mesh.half_edges(), once.half_edges());
    assert_eq!(mesh.faces(), once.faces());
}

#[test]
fn divide_edge_uses_the_edge_ends() {
    let mut mesh = square();
    // edge 0 runs from vertex 0 at (0, 1) to vertex 2 at (0, 0)
    mesh.divide_edge(0);
    assert_eq!(mesh.verts()[4].coord, Pt { x: 0.0, y: 0.5 });
    assert_eq!(mesh.half_edges()[10], HalfEdge::new(4, Some(6), Some(0), 1, 0));
    assert_eq!(mesh.half_edges()[11], HalfEdge::new(4, Some(0), None, 9, 6));
}
