use halfedge::{classify_triangle, EdgeCut, Side, TriCut};

fn cut(a: u32, b: u32, from: u32, to: u32) -> EdgeCut {
    EdgeCut { edge: [a, b], from, to }
}

#[test]
fn coplanar_cases() {
    assert_eq!(classify_triangle([Side::On, Side::On, Side::On]), TriCut::CoplanarFace);
    assert_eq!(classify_triangle([Side::On, Side::Above, Side::On]), TriCut::CoplanarEdge([0, 2]));
    assert_eq!(classify_triangle([Side::Below, Side::On, Side::On]), TriCut::CoplanarEdge([1, 2]));
    assert_eq!(classify_triangle([Side::Above, Side::On, Side::Above]), TriCut::CoplanarPoint(1));
    assert_eq!(classify_triangle([Side::Below, Side::Below, Side::On]), TriCut::CoplanarPoint(2));
}

#[test]
fn disjoint_cases() {
    assert_eq!(classify_triangle([Side::Above, Side::Above, Side::Above]), TriCut::Disjoint);
    assert_eq!(classify_triangle([Side::Below, Side::Below, Side::Below]), TriCut::Disjoint);
}

#[test]
fn bisecting_plane_passes_a_corner() {
    // corners above, on and below the plane, as in a triangle from
    // (1, 0, 1) through (0, 0, 0) to (0, 0, -1) cut by z = 0
    assert_eq!(
        classify_triangle([Side::Above, Side::On, Side::Below]),
        TriCut::EdgeCoPoint(cut(0, 2, 0, 2), 1)
    );
    assert_eq!(
        classify_triangle([Side::On, Side::Below, Side::Above]),
        TriCut::EdgeCoPoint(cut(2, 1, 2, 1), 0)
    );
}

#[test]
fn plane_crossing_two_edges() {
    assert_eq!(
        classify_triangle([Side::Below, Side::Above, Side::Above]),
        TriCut::EdgeEdge(cut(0, 1, 0, 1), cut(0, 2, 0, 2))
    );
    assert_eq!(
        classify_triangle([Side::Below, Side::Above, Side::Below]),
        TriCut::EdgeEdge(cut(0, 1, 1, 0), cut(2, 1, 1, 2))
    );
}
