//! The unit cube as a closed mesh.
use vstd::prelude::*;

use crate::construct::{built_verts, face_starts, polygons_ok, surface, total_sides};
use crate::manifold::{
    closed_manifold, closed_polygons, lemma_closed_is_manifold, lemma_closed_surface, has_reverse, is_side, reverses, side_dst, side_src,
    sides_unique,
};
use crate::mesh::Mesh;

verus! {

/// The six square faces of the cube, each listed counter-clockwise seen
/// from outside. Corners `0, 1, 2, 3` go round the bottom square and
/// `4, 5, 6, 7` are the corners above them, in the same order.
pub open spec fn cube_faces() -> Seq<Seq<u32>> {
    seq![seq![3u32, 2, 1, 0], seq![0u32, 1, 5, 4], seq![1u32, 2, 6, 5], seq![2u32, 3, 7, 6], seq![3u32, 0, 4, 7], seq![4u32, 5, 6, 7]]
}

/// Which side of [`cube_faces`] runs from `a` to `b`, if any.
pub open spec fn cube_side_of(a: u32, b: u32) -> (int, int) {
    if a == 3 && b == 2 {
        (0, 0)
    } else if a == 2 && b == 1 {
        (0, 1)
    } else if a == 1 && b == 0 {
        (0, 2)
    } else if a == 0 && b == 3 {
        (0, 3)
    } else if a == 0 && b == 1 {
        (1, 0)
    } else if a == 1 && b == 5 {
        (1, 1)
    } else if a == 5 && b == 4 {
        (1, 2)
    } else if a == 4 && b == 0 {
        (1, 3)
    } else if a == 1 && b == 2 {
        (2, 0)
    } else if a == 2 && b == 6 {
        (2, 1)
    } else if a == 6 && b == 5 {
        (2, 2)
    } else if a == 5 && b == 1 {
        (2, 3)
    } else if a == 2 && b == 3 {
        (3, 0)
    } else if a == 3 && b == 7 {
        (3, 1)
    } else if a == 7 && b == 6 {
        (3, 2)
    } else if a == 6 && b == 2 {
        (3, 3)
    } else if a == 3 && b == 0 {
        (4, 0)
    } else if a == 0 && b == 4 {
        (4, 1)
    } else if a == 4 && b == 7 {
        (4, 2)
    } else if a == 7 && b == 3 {
        (4, 3)
    } else if a == 4 && b == 5 {
        (5, 0)
    } else if a == 5 && b == 6 {
        (5, 1)
    } else if a == 6 && b == 7 {
        (5, 2)
    } else if a == 7 && b == 4 {
        (5, 3)
    } else {
        (-1, -1)
    }
}

proof fn lemma_cube_side(f: int, i: int)
    requires
        0 <= f < 6,
        0 <= i < 4,
    ensures
        cube_faces()[f].len() == 4,
        cube_faces()[f][i] < 8,
        cube_side_of(side_src(cube_faces(), f, i), side_dst(cube_faces(), f, i)) == (f, i),
        reverses(
            cube_faces(),
            f,
            i,
            cube_side_of(side_dst(cube_faces(), f, i), side_src(cube_faces(), f, i)).0,
            cube_side_of(side_dst(cube_faces(), f, i), side_src(cube_faces(), f, i)).1,
        ),
{
    let fl = cube_faces();
    assert(fl.len() == 6);
    if f == 0 {
        assert(fl[0] == seq![3u32, 2, 1, 0]);
    } else if f == 1 {
        assert(fl[1] == seq![0u32, 1, 5, 4]);
    } else if f == 2 {
        assert(fl[2] == seq![1u32, 2, 6, 5]);
    } else if f == 3 {
        assert(fl[3] == seq![2u32, 3, 7, 6]);
    } else if f == 4 {
        assert(fl[4] == seq![3u32, 0, 4, 7]);
    } else if f == 5 {
        assert(fl[5] == seq![4u32, 5, 6, 7]);
    }
}

/// The cube's faces close up: each directed side once, its opposite in
/// another face.
pub proof fn lemma_cube_closed()
    ensures
        closed_manifold(cube_faces(), 8),
        2 * total_sides(cube_faces(), 6) <= u32::MAX,
{
    let fl = cube_faces();
    assert(fl.len() == 6);
    assert(polygons_ok(fl, 8)) by {
        assert forall|f: int| 0 <= f < fl.len() implies {
            &&& (#[trigger] fl[f]).len() > 0
            &&& forall|i: int| 0 <= i < fl[f].len() ==> #[trigger] fl[f][i] < 8
        } by {
            lemma_cube_side(f, 0);
            assert forall|i: int| 0 <= i < fl[f].len() implies #[trigger] fl[f][i] < 8 by {
                lemma_cube_side(f, i);
            }
        }
    }
    assert(sides_unique(fl)) by {
        assert forall|f: int, i: int, g: int, k: int|
            is_side(fl, f, i) && is_side(fl, g, k) && side_src(fl, f, i) == side_src(fl, g, k)
                && side_dst(fl, f, i) == side_dst(fl, g, k) implies f == g && i == k by {
            lemma_cube_side(f, 0);
            lemma_cube_side(g, 0);
            lemma_cube_side(f, i);
            lemma_cube_side(g, k);
        }
    }
    assert(closed_polygons(fl)) by {
        assert forall|f: int, i: int| #[trigger] is_side(fl, f, i) implies has_reverse(fl, f, i) by {
            lemma_cube_side(f, 0);
            lemma_cube_side(f, i);
            let (g, k) = cube_side_of(side_dst(fl, f, i), side_src(fl, f, i));
            assert(reverses(fl, f, i, g, k));
        }
    }
    lemma_cube_side(0, 0);
    lemma_cube_side(1, 0);
    lemma_cube_side(2, 0);
    lemma_cube_side(3, 0);
    lemma_cube_side(4, 0);
    lemma_cube_side(5, 0);
    reveal_with_fuel(total_sides, 7);
}

impl<P> Mesh<P> {
    /// The unit cube: six square faces over the eight `corners`, which are
    /// numbered with the bottom square `0, 1, 2, 3` and the top square
    /// `4, 5, 6, 7` above them. Every half edge has a face and a twin.
    pub fn unit_cube(corners: Vec<P>) -> (r: Self)
        requires
            corners@.len() == 8,
        ensures
            r.half_edges@ == surface(cube_faces(), 6),
            r.faces@ == face_starts(cube_faces(), 6),
            r.verts@ == built_verts(corners@, surface(cube_faces(), 6)),
            r.wf(),
            forall|e: int| 0 <= e < r.half_edges@.len() ==> (#[trigger] r.half_edges@[e]).face is Some,
    {
        let faces: Vec<Vec<u32>> = vec![
            vec![3, 2, 1, 0],
            vec![0, 1, 5, 4],
            vec![1, 2, 6, 5],
            vec![2, 3, 7, 6],
            vec![3, 0, 4, 7],
            vec![4, 5, 6, 7],
        ];
        proof {
            lemma_cube_closed();
            lemma_closed_surface(cube_faces(), 8);
            lemma_closed_is_manifold(cube_faces(), 8);
            assert(faces.deep_view()[0] =~= cube_faces()[0]);
            assert(faces.deep_view()[1] =~= cube_faces()[1]);
            assert(faces.deep_view()[2] =~= cube_faces()[2]);
            assert(faces.deep_view()[3] =~= cube_faces()[3]);
            assert(faces.deep_view()[4] =~= cube_faces()[4]);
            assert(faces.deep_view()[5] =~= cube_faces()[5]);
            assert(faces.deep_view() =~= cube_faces());
        }
        Mesh::from_verts_faces(corners, faces)
    }
}

} // verus!
