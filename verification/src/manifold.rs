//! What the mesh built from a polygon list is, side by side: its faces read
//! back as the polygons; from a manifold polygon list (no directed side
//! twice, the unmatched sides in loops) it is well formed, and from a closed
//! one it has no border.
use vstd::prelude::*;

use crate::construct::{
    add_face, boundary_closes, boundary_edge, boundary_source, built_verts, dest, face_starts,
    first_from, last_edge_for, last_into, last_origin, last_side_for, lemma_loners,
    lemma_paired_stays, lemma_surface, lemma_total_sides_mono, loners, new_side, next_idx,
    paired_old, pairs, polygons_ok, prev_idx, surface, total_sides, with_boundary,
    with_boundary_twin,
};
use crate::mesh::{edge_in_range, HalfEdge, Mesh};
use crate::orbit::{is_edge, lemma_returns_unique, links_ok, next_iter, orbit_len, returns_at};
use crate::traverse::face_origins;

verus! {

/// `(f, i)` names side `i` of polygon `f`.
pub open spec fn is_side(fl: Seq<Seq<u32>>, f: int, i: int) -> bool {
    0 <= f < fl.len() && 0 <= i < fl[f].len()
}

/// The index of the half edge built for side `i` of polygon `f`.
pub open spec fn side_id(fl: Seq<Seq<u32>>, f: int, i: int) -> int {
    total_sides(fl, f as nat) + i
}

/// The vertex side `i` of polygon `f` leaves from.
pub open spec fn side_src(fl: Seq<Seq<u32>>, f: int, i: int) -> u32 {
    fl[f][i]
}

/// The vertex side `i` of polygon `f` runs to.
pub open spec fn side_dst(fl: Seq<Seq<u32>>, f: int, i: int) -> u32 {
    fl[f][next_idx(i, fl[f].len() as int)]
}

/// No directed side occurs twice.
pub open spec fn sides_unique(fl: Seq<Seq<u32>>) -> bool {
    forall|f: int, i: int, g: int, k: int|
        #![trigger is_side(fl, f, i), is_side(fl, g, k)]
        is_side(fl, f, i) && is_side(fl, g, k) && side_src(fl, f, i) == side_src(fl, g, k)
            && side_dst(fl, f, i) == side_dst(fl, g, k) ==> f == g && i == k
}

/// Side `(g, k)` of another polygon runs opposite to side `(f, i)`.
pub open spec fn reverses(fl: Seq<Seq<u32>>, f: int, i: int, g: int, k: int) -> bool {
    &&& is_side(fl, g, k)
    &&& g != f
    &&& side_src(fl, g, k) == side_dst(fl, f, i)
    &&& side_dst(fl, g, k) == side_src(fl, f, i)
}

/// Some side of another polygon runs opposite to `(f, i)`.
pub open spec fn has_reverse(fl: Seq<Seq<u32>>, f: int, i: int) -> bool {
    exists|g: int, k: int| #[trigger] reverses(fl, f, i, g, k)
}

/// The side running opposite to `(f, i)`, where there is one.
pub open spec fn reverse_side(fl: Seq<Seq<u32>>, f: int, i: int) -> (int, int) {
    choose|g: int, k: int| #[trigger] reverses(fl, f, i, g, k)
}

/// Every side is matched by an opposite side of another polygon.
pub open spec fn closed_polygons(fl: Seq<Seq<u32>>) -> bool {
    forall|f: int, i: int| #[trigger] is_side(fl, f, i) ==> has_reverse(fl, f, i)
}

/// Polygons over `n_points` vertices that close up into a surface without
/// boundary: each directed side occurs once and its opposite occurs in
/// another polygon.
pub open spec fn closed_manifold(fl: Seq<Seq<u32>>, n_points: nat) -> bool {
    &&& polygons_ok(fl, n_points)
    &&& sides_unique(fl)
    &&& closed_polygons(fl)
}

/// The twin of side `(f, i)` once the first `m` polygons are built.
pub open spec fn twin_after(fl: Seq<Seq<u32>>, m: int, f: int, i: int) -> Option<u32> {
    if has_reverse(fl, f, i) && reverse_side(fl, f, i).0 < m {
        Some(side_id(fl, reverse_side(fl, f, i).0, reverse_side(fl, f, i).1) as u32)
    } else {
        None
    }
}

/// The half edge of side `(f, i)` once the first `m` polygons are built.
pub open spec fn built_side(fl: Seq<Seq<u32>>, m: int, f: int, i: int) -> HalfEdge {
    let k = fl[f].len() as int;
    HalfEdge {
        origin: fl[f][i],
        twin: twin_after(fl, m, f, i),
        face: Some(f as u32),
        next: side_id(fl, f, next_idx(i, k)) as u32,
        prev: side_id(fl, f, prev_idx(i, k)) as u32,
    }
}

/// The opposite side, where it exists, is the one [`reverse_side`] picks.
proof fn lemma_reverse_unique(fl: Seq<Seq<u32>>, f: int, i: int, g: int, k: int)
    requires
        sides_unique(fl),
        is_side(fl, f, i),
        reverses(fl, f, i, g, k),
    ensures
        has_reverse(fl, f, i),
        reverse_side(fl, f, i) == (g, k),
        reverses(fl, g, k, f, i),
{
    assert(has_reverse(fl, f, i));
    let (g2, k2) = reverse_side(fl, f, i);
    assert(reverses(fl, f, i, g2, k2));
    assert(is_side(fl, g, k) && is_side(fl, g2, k2));
}

/// Side ids of polygon `f` lie between the totals before and after it.
proof fn lemma_side_id_range(fl: Seq<Seq<u32>>, f: int, i: int, m: int)
    requires
        is_side(fl, f, i),
        f < m <= fl.len(),
    ensures
        total_sides(fl, f as nat) <= side_id(fl, f, i) < total_sides(fl, (f + 1) as nat),
        side_id(fl, f, i) < total_sides(fl, m as nat),
{
    lemma_total_sides_mono(fl, (f + 1) as nat, m as nat);
}

/// Sides of different polygons get different ids.
proof fn lemma_side_id_apart(fl: Seq<Seq<u32>>, f: int, i: int, g: int, k: int)
    requires
        is_side(fl, f, i),
        is_side(fl, g, k),
        f != g,
    ensures
        side_id(fl, f, i) != side_id(fl, g, k),
{
    if f < g {
        lemma_side_id_range(fl, f, i, g);
    } else {
        lemma_side_id_range(fl, g, k, f);
    }
}

/// The side whose half edge has index `j` among the first `m` polygons.
pub open spec fn side_of(fl: Seq<Seq<u32>>, m: nat, j: int) -> (int, int)
    decreases m,
{
    if m == 0 {
        (0, 0)
    } else if j < total_sides(fl, (m - 1) as nat) {
        side_of(fl, (m - 1) as nat, j)
    } else {
        (m - 1, j - total_sides(fl, (m - 1) as nat))
    }
}

/// Every half edge among the first `m` polygons belongs to a side.
proof fn lemma_side_of(fl: Seq<Seq<u32>>, m: nat, j: int)
    requires
        m <= fl.len(),
        0 <= j < total_sides(fl, m),
    ensures
        side_of(fl, m, j).0 < m,
        is_side(fl, side_of(fl, m, j).0, side_of(fl, m, j).1),
        j == side_id(fl, side_of(fl, m, j).0, side_of(fl, m, j).1),
        surface_matches(fl, m) ==> surface(fl, m)[j] == built_side(
            fl,
            m as int,
            side_of(fl, m, j).0,
            side_of(fl, m, j).1,
        ),
    decreases m,
{
    if j < total_sides(fl, (m - 1) as nat) {
        lemma_side_of(fl, (m - 1) as nat, j);
    }
    let (f, i) = side_of(fl, m, j);
    if surface_matches(fl, m) {
        assert(surface(fl, m)[side_id(fl, f, i)] == built_side(fl, m as int, f, i));
    }
}

proof fn lemma_last_side_none(es: Seq<HalfEdge>, j: int, vs: Seq<u32>, u: int)
    requires
        forall|a: int| 0 <= a < u ==> !#[trigger] pairs(es, j, vs, a),
    ensures
        last_side_for(es, j, vs, u) is None,
    decreases u,
{
    if u > 0 {
        lemma_last_side_none(es, j, vs, u - 1);
    }
}

proof fn lemma_last_side_one(es: Seq<HalfEdge>, j: int, vs: Seq<u32>, u: int, a0: int)
    requires
        0 <= a0 < u,
        pairs(es, j, vs, a0),
        forall|a: int| 0 <= a < u && a != a0 ==> !#[trigger] pairs(es, j, vs, a),
    ensures
        last_side_for(es, j, vs, u) == Some(a0),
    decreases u,
{
    if u - 1 != a0 {
        lemma_last_side_one(es, j, vs, u - 1, a0);
    }
}

proof fn lemma_last_edge_none(es: Seq<HalfEdge>, i: int, vs: Seq<u32>, u: int)
    requires
        forall|b: int| 0 <= b < u ==> !#[trigger] pairs(es, b, vs, i),
    ensures
        last_edge_for(es, i, vs, u) is None,
    decreases u,
{
    if u > 0 {
        lemma_last_edge_none(es, i, vs, u - 1);
    }
}

proof fn lemma_last_edge_one(es: Seq<HalfEdge>, i: int, vs: Seq<u32>, u: int, b0: int)
    requires
        0 <= b0 < u,
        pairs(es, b0, vs, i),
        forall|b: int| 0 <= b < u && b != b0 ==> !#[trigger] pairs(es, b, vs, i),
    ensures
        last_edge_for(es, i, vs, u) == Some(b0),
    decreases u,
{
    if u - 1 != b0 {
        lemma_last_edge_one(es, i, vs, u - 1, b0);
    }
}

/// The half edges of the first `m` polygons are the [`built_side`]s.
pub open spec fn surface_matches(fl: Seq<Seq<u32>>, m: nat) -> bool {
    &&& surface(fl, m).len() == total_sides(fl, m)
    &&& forall|f: int, i: int|
        #![trigger surface(fl, m)[side_id(fl, f, i)]]
        f < m && is_side(fl, f, i) ==> surface(fl, m)[side_id(fl, f, i)] == built_side(
            fl,
            m as int,
            f,
            i,
        )
}

/// Where the built half edge of a side starts and ends.
proof fn lemma_built_ends(fl: Seq<Seq<u32>>, m: nat, f: int, i: int)
    requires
        surface_matches(fl, m),
        m <= fl.len(),
        total_sides(fl, fl.len()) <= u32::MAX,
        f < m,
        is_side(fl, f, i),
    ensures
        surface(fl, m)[side_id(fl, f, i)].origin == side_src(fl, f, i),
        surface(fl, m)[side_id(fl, f, i)].next as int == side_id(
            fl,
            f,
            next_idx(i, fl[f].len() as int),
        ),
        dest(surface(fl, m), side_id(fl, f, i)) == side_dst(fl, f, i),
{
    let i2 = next_idx(i, fl[f].len() as int);
    lemma_side_id_range(fl, f, i2, fl.len() as int);
    assert(surface(fl, m)[side_id(fl, f, i2)] == built_side(fl, m as int, f, i2));
}

/// A side of an earlier polygon once polygon `m` is added.
proof fn lemma_step_old(fl: Seq<Seq<u32>>, m: nat, f: int, i: int)
    requires
        surface_matches(fl, m),
        sides_unique(fl),
        m < fl.len(),
        total_sides(fl, fl.len()) <= u32::MAX,
        f < m,
        is_side(fl, f, i),
    ensures
        surface(fl, m + 1)[side_id(fl, f, i)] == built_side(fl, m + 1 as int, f, i),
{
    let es = surface(fl, m);
    let vs = fl[m as int];
    let n = es.len() as int;
    let k = vs.len() as int;
    let j = side_id(fl, f, i);
    lemma_side_id_range(fl, f, i, m as int);
    lemma_built_ends(fl, m, f, i);
    assert(surface(fl, m + 1) == add_face(es, vs, m as int));
    assert(surface(fl, m + 1)[j] == paired_old(es, vs, j));
    assert(es[j] == built_side(fl, m as int, f, i));
    if twin_after(fl, m as int, f, i) is Some {
        lemma_paired_stays(es, j, vs, k);
    } else if has_reverse(fl, f, i) && reverse_side(fl, f, i).0 == m {
        let (g, kk) = reverse_side(fl, f, i);
        assert(reverses(fl, f, i, g, kk));
        assert(pairs(es, j, vs, kk));
        assert forall|a: int| 0 <= a < k && a != kk implies !#[trigger] pairs(es, j, vs, a) by {
            if pairs(es, j, vs, a) {
                assert(reverses(fl, f, i, m as int, a));
                lemma_reverse_unique(fl, f, i, m as int, a);
            }
        }
        lemma_last_side_one(es, j, vs, k, kk);
        lemma_side_id_range(fl, g, kk, fl.len() as int);
    } else {
        assert forall|a: int| 0 <= a < k implies !#[trigger] pairs(es, j, vs, a) by {
            if pairs(es, j, vs, a) {
                assert(reverses(fl, f, i, m as int, a));
                lemma_reverse_unique(fl, f, i, m as int, a);
            }
        }
        lemma_last_side_none(es, j, vs, k);
    }
}

/// A side of polygon `m` once it is added.
proof fn lemma_step_new(fl: Seq<Seq<u32>>, m: nat, i: int)
    requires
        surface_matches(fl, m),
        sides_unique(fl),
        m < fl.len(),
        total_sides(fl, fl.len()) <= u32::MAX,
        is_side(fl, m as int, i),
    ensures
        surface(fl, m + 1)[side_id(fl, m as int, i)] == built_side(fl, m + 1 as int, m as int, i),
{
    let es = surface(fl, m);
    let vs = fl[m as int];
    let n = es.len() as int;
    let k = vs.len() as int;
    let j = side_id(fl, m as int, i);
    assert(surface(fl, m + 1) == add_face(es, vs, m as int));
    assert(surface(fl, m + 1)[j] == new_side(es, vs, m as int, i));
    lemma_side_id_range(fl, m as int, i, fl.len() as int);
    let i2 = next_idx(i, k);
    let i0 = prev_idx(i, k);
    lemma_side_id_range(fl, m as int, i2, fl.len() as int);
    lemma_side_id_range(fl, m as int, i0, fl.len() as int);
    if has_reverse(fl, m as int, i) && reverse_side(fl, m as int, i).0 < m {
        let (g, kk) = reverse_side(fl, m as int, i);
        assert(reverses(fl, m as int, i, g, kk));
        lemma_reverse_unique(fl, m as int, i, g, kk);
        lemma_reverse_unique(fl, g, kk, m as int, i);
        let b0 = side_id(fl, g, kk);
        lemma_side_id_range(fl, g, kk, m as int);
        lemma_built_ends(fl, m, g, kk);
        assert(es[b0] == built_side(fl, m as int, g, kk));
        assert(pairs(es, b0, vs, i));
        assert forall|b: int| 0 <= b < n && b != b0 implies !#[trigger] pairs(es, b, vs, i) by {
            if pairs(es, b, vs, i) {
                let (f2, i3) = side_of(fl, m, b);
                lemma_side_of(fl, m, b);
                lemma_built_ends(fl, m, f2, i3);
                assert(reverses(fl, m as int, i, f2, i3));
                lemma_reverse_unique(fl, m as int, i, f2, i3);
            }
        }
        lemma_last_edge_one(es, i, vs, n, b0);
    } else {
        assert forall|b: int| 0 <= b < n implies !#[trigger] pairs(es, b, vs, i) by {
            if pairs(es, b, vs, i) {
                let (f2, i3) = side_of(fl, m, b);
                lemma_side_of(fl, m, b);
                lemma_built_ends(fl, m, f2, i3);
                assert(reverses(fl, m as int, i, f2, i3));
                lemma_reverse_unique(fl, m as int, i, f2, i3);
            }
        }
        lemma_last_edge_none(es, i, vs, n);
        if has_reverse(fl, m as int, i) {
            let (g, kk) = reverse_side(fl, m as int, i);
            assert(reverses(fl, m as int, i, g, kk));
        }
    }
}

/// The half edges of the first `m` polygons, side by side, when no directed
/// side repeats.
pub proof fn lemma_surface_sides(fl: Seq<Seq<u32>>, m: nat, np: nat)
    requires
        polygons_ok(fl, np),
        sides_unique(fl),
        m <= fl.len(),
        total_sides(fl, fl.len()) <= u32::MAX,
    ensures
        surface_matches(fl, m),
    decreases m,
{
    if m > 0 {
        let m1 = (m - 1) as nat;
        lemma_surface_sides(fl, m1, np);
        let es = surface(fl, m1);
        let vs = fl[m1 as int];
        assert(surface(fl, m) == add_face(es, vs, m1 as int));
        assert forall|f: int, i: int| f < m && is_side(fl, f, i) implies #[trigger] surface(
            fl,
            m,
        )[side_id(fl, f, i)] == built_side(fl, m as int, f, i) by {
            if f < m1 {
                lemma_step_old(fl, m1, f, i);
            } else {
                lemma_step_new(fl, m1, i);
            }
        }
    }
}

/// In a closed polygon list every built half edge has a twin.
proof fn lemma_closed_paired(fl: Seq<Seq<u32>>, np: nat)
    requires
        closed_manifold(fl, np),
        total_sides(fl, fl.len()) <= u32::MAX,
    ensures
        surface_matches(fl, fl.len()),
        forall|j: int|
            0 <= j < surface(fl, fl.len()).len() ==> (#[trigger] surface(fl, fl.len())[j]).twin is Some,
{
    let nf = fl.len();
    lemma_surface_sides(fl, nf, np);
    assert forall|j: int| 0 <= j < surface(fl, nf).len() implies (#[trigger] surface(
        fl,
        nf,
    )[j]).twin is Some by {
        let (f, i) = side_of(fl, nf, j);
        lemma_side_of(fl, nf, j);
        assert(has_reverse(fl, f, i));
        let (g, k) = reverse_side(fl, f, i);
        assert(reverses(fl, f, i, g, k));
        assert(surface(fl, nf)[side_id(fl, f, i)] == built_side(fl, nf as int, f, i));
    }
}

proof fn lemma_no_loners(es: Seq<HalfEdge>, u: int)
    requires
        0 <= u <= es.len(),
        forall|j: int| 0 <= j < es.len() ==> (#[trigger] es[j]).twin is Some,
    ensures
        loners(es, u).len() == 0,
    decreases u,
{
    if u > 0 {
        assert(es[u - 1].twin is Some);
        lemma_no_loners(es, u - 1);
    }
}

/// A closed polygon list leaves no half edge without a twin, so it needs no
/// boundary.
pub proof fn lemma_closed_surface(fl: Seq<Seq<u32>>, np: nat)
    requires
        closed_manifold(fl, np),
        total_sides(fl, fl.len()) <= u32::MAX,
    ensures
        loners(surface(fl, fl.len()), surface(fl, fl.len()).len() as int).len() == 0,
        boundary_closes(surface(fl, fl.len())),
        with_boundary(surface(fl, fl.len())) == surface(fl, fl.len()),
{
    let es = surface(fl, fl.len());
    lemma_closed_paired(fl, np);
    lemma_no_loners(es, es.len() as int);
    assert(with_boundary(es) =~= es) by {
        assert forall|j: int| 0 <= j < es.len() implies #[trigger] with_boundary(es)[j] == es[j] by {
            assert(with_boundary_twin(es, j) == es[j]);
        }
    }
}

proof fn lemma_face_starts(fl: Seq<Seq<u32>>, m: nat)
    requires
        m <= fl.len(),
    ensures
        face_starts(fl, m).len() == m,
        forall|f: int| 0 <= f < m ==> #[trigger] face_starts(fl, m)[f] == total_sides(fl, f as nat) as u32,
    decreases m,
{
    if m > 0 {
        lemma_face_starts(fl, (m - 1) as nat);
    }
}

proof fn lemma_last_origin(es: Seq<HalfEdge>, v: int, u: int, e: int)
    requires
        0 <= e < u <= es.len(),
        es[e].origin == v,
    ensures
        0 <= last_origin(es, v, u) < u,
        es[last_origin(es, v, u)].origin == v,
    decreases u,
{
    if es[u - 1].origin != v {
        lemma_last_origin(es, v, u - 1, e);
    }
}

/// Building a mesh from a closed polygon list gives a well formed mesh in
/// which every half edge bounds a face: there is no border.
pub proof fn lemma_closed_builds_wf<P>(points: Seq<P>, fl: Seq<Seq<u32>>, m: Mesh<P>)
    requires
        closed_manifold(fl, points.len()),
        2 * total_sides(fl, fl.len()) <= u32::MAX,
        builds(points, fl, m),
    ensures
        m.wf(),
        forall|e: int| 0 <= e < m.half_edges@.len() ==> (#[trigger] m.half_edges@[e]).face is Some,
{
    let nf = fl.len();
    let np = points.len();
    lemma_closed_is_manifold(fl, np);
    lemma_manifold_builds_wf(points, fl, m);
    lemma_closed_surface(fl, np);
    lemma_closed_paired(fl, np);
    assert forall|e: int| 0 <= e < m.half_edges@.len() implies (#[trigger] m.half_edges@[e]).face is Some by {
        lemma_side_of(fl, nf, e);
    }
}

/// Side `(f, i)` has no opposite side: it borders the outside.
pub open spec fn is_border(fl: Seq<Seq<u32>>, f: int, i: int) -> bool {
    is_side(fl, f, i) && !has_reverse(fl, f, i)
}

/// The border sides run in loops: at each vertex on the border exactly one
/// border side leaves and exactly one arrives.
#[verifier::opaque]
pub open spec fn border_ok(fl: Seq<Seq<u32>>) -> bool {
    &&& forall|f: int, i: int, g: int, k: int|
        #![trigger is_border(fl, f, i), is_border(fl, g, k)]
        is_border(fl, f, i) && is_border(fl, g, k) && side_src(fl, f, i) == side_src(fl, g, k)
            ==> f == g && i == k
    &&& forall|f: int, i: int, g: int, k: int|
        #![trigger is_border(fl, f, i), is_border(fl, g, k)]
        is_border(fl, f, i) && is_border(fl, g, k) && side_dst(fl, f, i) == side_dst(fl, g, k)
            ==> f == g && i == k
    &&& forall|f: int, i: int|
        #[trigger] is_border(fl, f, i) ==> exists|g: int, k: int|
            #[trigger] is_border(fl, g, k) && side_src(fl, g, k) == side_dst(fl, f, i)
    &&& forall|f: int, i: int|
        #[trigger] is_border(fl, f, i) ==> exists|g: int, k: int|
            #[trigger] is_border(fl, g, k) && side_dst(fl, g, k) == side_src(fl, f, i)
}

/// Polygons over `n_points` vertices that form an oriented surface, with or
/// without border: no directed side occurs twice, and the sides left
/// without an opposite run in loops.
pub open spec fn manifold(fl: Seq<Seq<u32>>, n_points: nat) -> bool {
    &&& polygons_ok(fl, n_points)
    &&& sides_unique(fl)
    &&& border_ok(fl)
}

/// A closed polygon list has no border.
pub proof fn lemma_closed_is_manifold(fl: Seq<Seq<u32>>, n_points: nat)
    requires
        closed_manifold(fl, n_points),
    ensures
        manifold(fl, n_points),
{
    assert forall|f: int, i: int| !#[trigger] is_border(fl, f, i) by {
        if is_side(fl, f, i) {
            assert(has_reverse(fl, f, i));
        }
    }
    reveal(border_ok);
}

/// The border side leaving where border side `(f, i)` arrives.
proof fn lemma_border_after(fl: Seq<Seq<u32>>, f: int, i: int) -> (r: (int, int))
    requires
        border_ok(fl),
        is_border(fl, f, i),
    ensures
        is_border(fl, r.0, r.1),
        side_src(fl, r.0, r.1) == side_dst(fl, f, i),
{
    reveal(border_ok);
    choose|g: int, k: int| #[trigger] is_border(fl, g, k) && side_src(fl, g, k) == side_dst(fl, f, i)
}

/// The border side arriving where border side `(f, i)` leaves.
proof fn lemma_border_before(fl: Seq<Seq<u32>>, f: int, i: int) -> (r: (int, int))
    requires
        border_ok(fl),
        is_border(fl, f, i),
    ensures
        is_border(fl, r.0, r.1),
        side_dst(fl, r.0, r.1) == side_src(fl, f, i),
{
    reveal(border_ok);
    choose|g: int, k: int| #[trigger] is_border(fl, g, k) && side_dst(fl, g, k) == side_src(fl, f, i)
}

/// Two border sides that leave, or arrive at, the same vertex are the same.
proof fn lemma_border_apart(fl: Seq<Seq<u32>>, f: int, i: int, g: int, k: int)
    requires
        border_ok(fl),
        is_border(fl, f, i),
        is_border(fl, g, k),
        side_src(fl, f, i) == side_src(fl, g, k) || side_dst(fl, f, i) == side_dst(fl, g, k),
    ensures
        f == g && i == k,
{
    reveal(border_ok);
}

/// A half edge without a twin sits among the loners at the position given
/// by the loners before it.
proof fn lemma_loner_index(es: Seq<HalfEdge>, u: int, j: int)
    requires
        0 <= j < u <= es.len(),
        es.len() <= u32::MAX,
        es[j].twin is None,
    ensures
        loners(es, j).len() < loners(es, u).len(),
        loners(es, u)[loners(es, j).len() as int] == j,
    decreases u,
{
    if u - 1 != j {
        lemma_loner_index(es, u - 1, j);
        if es[u - 1].twin is None {
            assert(loners(es, u) == loners(es, u - 1).push((u - 1) as u32));
        } else {
            assert(loners(es, u) == loners(es, u - 1));
        }
    } else {
        assert(loners(es, u) == loners(es, j).push(j as u32));
    }
}

proof fn lemma_first_from(es: Seq<HalfEdge>, ls: Seq<u32>, o: u32, m: int, a0: int)
    requires
        0 <= m <= a0 < ls.len(),
        es[ls[a0] as int].origin == o,
        forall|a: int| m <= a < ls.len() && a != a0 ==> es[#[trigger] ls[a] as int].origin != o,
    ensures
        first_from(es, ls, o, m) == Some(a0),
    decreases a0 - m,
{
    if m < a0 {
        lemma_first_from(es, ls, o, m + 1, a0);
    }
}

proof fn lemma_last_into(es: Seq<HalfEdge>, ls: Seq<u32>, m: int, u: int, i0: int)
    requires
        0 <= i0 < u,
        boundary_source(es, ls, i0) == Some(m),
        forall|i: int| 0 <= i < u && i != i0 ==> #[trigger] boundary_source(es, ls, i) != Some(m),
    ensures
        last_into(es, ls, m, u) == Some(i0),
    decreases u,
{
    if u - 1 != i0 {
        lemma_last_into(es, ls, m, u - 1, i0);
    }
}

/// The built half edges without a twin are exactly those of border sides.
proof fn lemma_loner_is_border(fl: Seq<Seq<u32>>, j: int)
    requires
        surface_matches(fl, fl.len()),
        sides_unique(fl),
        0 <= j < total_sides(fl, fl.len()),
    ensures
        (surface(fl, fl.len())[j].twin is None) == is_border(
            fl,
            side_of(fl, fl.len(), j).0,
            side_of(fl, fl.len(), j).1,
        ),
{
    let (f, i) = side_of(fl, fl.len(), j);
    lemma_side_of(fl, fl.len(), j);
    if has_reverse(fl, f, i) {
        let (g, k) = reverse_side(fl, f, i);
        assert(reverses(fl, f, i, g, k));
    }
}

/// The setting of the boundary lemmas below: the built half edges and the
/// loners among them.
spec fn border_setting(fl: Seq<Seq<u32>>, np: nat) -> bool {
    &&& manifold(fl, np)
    &&& total_sides(fl, fl.len()) <= u32::MAX
    &&& surface_matches(fl, fl.len())
    &&& forall|j: int|
        0 <= j < surface(fl, fl.len()).len() ==> #[trigger] surface(fl, fl.len())[j].next < surface(
            fl,
            fl.len(),
        ).len()
}

/// Each loner is the half edge of a border side.
proof fn lemma_loner_side(fl: Seq<Seq<u32>>, np: nat, a: int)
    requires
        border_setting(fl, np),
        0 <= a < loners(surface(fl, fl.len()), surface(fl, fl.len()).len() as int).len(),
    ensures
        ({
            let es = surface(fl, fl.len());
            let ls = loners(es, es.len() as int);
            let (f, i) = side_of(fl, fl.len(), ls[a] as int);
            &&& is_border(fl, f, i)
            &&& 0 <= ls[a] < es.len()
            &&& ls[a] as int == side_id(fl, f, i)
            &&& loners(es, ls[a] as int).len() == a
            &&& es[ls[a] as int].origin == side_src(fl, f, i)
            &&& dest(es, ls[a] as int) == side_dst(fl, f, i)
        }),
{
    let nf = fl.len();
    let es = surface(fl, nf);
    let ls = loners(es, es.len() as int);
    lemma_loners(es, es.len() as int);
    let j = ls[a] as int;
    lemma_loner_is_border(fl, j);
    lemma_side_of(fl, nf, j);
    lemma_built_ends(fl, nf, side_of(fl, nf, j).0, side_of(fl, nf, j).1);
}

/// Each border side has its loner.
proof fn lemma_border_loner(fl: Seq<Seq<u32>>, np: nat, f: int, i: int)
    requires
        border_setting(fl, np),
        is_border(fl, f, i),
    ensures
        ({
            let es = surface(fl, fl.len());
            let ls = loners(es, es.len() as int);
            let a = loners(es, side_id(fl, f, i)).len() as int;
            &&& 0 <= a < ls.len()
            &&& ls[a] as int == side_id(fl, f, i)
        }),
{
    let nf = fl.len();
    let es = surface(fl, nf);
    let j = side_id(fl, f, i);
    lemma_side_id_range(fl, f, i, nf as int);
    lemma_side_of(fl, nf, j);
    let (f2, i2) = side_of(fl, nf, j);
    if f2 != f {
        lemma_side_id_apart(fl, f, i, f2, i2);
    }
    lemma_loner_is_border(fl, j);
    lemma_loner_index(es, es.len() as int, j);
}

/// The boundary twin before that of loner `a` is the one of the loner that
/// leaves where loner `a` arrives.
proof fn lemma_source(fl: Seq<Seq<u32>>, np: nat, a: int)
    requires
        border_setting(fl, np),
        0 <= a < loners(surface(fl, fl.len()), surface(fl, fl.len()).len() as int).len(),
    ensures
        ({
            let es = surface(fl, fl.len());
            let ls = loners(es, es.len() as int);
            &&& boundary_source(es, ls, a) is Some
            &&& 0 <= boundary_source(es, ls, a)->0 < ls.len()
            &&& es[ls[boundary_source(es, ls, a)->0] as int].origin == dest(es, ls[a] as int)
        }),
{
    let nf = fl.len();
    let es = surface(fl, nf);
    let ls = loners(es, es.len() as int);
    let nl = ls.len() as int;
    lemma_loner_side(fl, np, a);
    let (f, i) = side_of(fl, nf, ls[a] as int);
    let (g, k) = lemma_border_after(fl, f, i);
    lemma_border_loner(fl, np, g, k);
    let a0 = loners(es, side_id(fl, g, k)).len() as int;
    lemma_loner_side(fl, np, a0);
    let o = dest(es, ls[a] as int);
    assert forall|b: int| 0 <= b < nl && b != a0 implies es[#[trigger] ls[b] as int].origin != o by {
        lemma_loner_side(fl, np, b);
        let (f3, i3) = side_of(fl, nf, ls[b] as int);
        if es[ls[b] as int].origin == o {
            lemma_border_apart(fl, g, k, f3, i3);
        }
    }
    lemma_first_from(es, ls, o, 0, a0);
}

/// Different loners get their boundary twin after different ones.
proof fn lemma_source_apart(fl: Seq<Seq<u32>>, np: nat, a: int, b: int)
    requires
        border_setting(fl, np),
        0 <= a < loners(surface(fl, fl.len()), surface(fl, fl.len()).len() as int).len(),
        0 <= b < loners(surface(fl, fl.len()), surface(fl, fl.len()).len() as int).len(),
        boundary_source(
            surface(fl, fl.len()),
            loners(surface(fl, fl.len()), surface(fl, fl.len()).len() as int),
            a,
        ) == boundary_source(
            surface(fl, fl.len()),
            loners(surface(fl, fl.len()), surface(fl, fl.len()).len() as int),
            b,
        ),
    ensures
        a == b,
{
    let nf = fl.len();
    let es = surface(fl, nf);
    let ls = loners(es, es.len() as int);
    lemma_source(fl, np, a);
    lemma_source(fl, np, b);
    lemma_loner_side(fl, np, a);
    lemma_loner_side(fl, np, b);
    let (f, i) = side_of(fl, nf, ls[a] as int);
    let (g, k) = side_of(fl, nf, ls[b] as int);
    lemma_border_apart(fl, f, i, g, k);
}

/// Exactly one loner gets its boundary twin right after that of loner `a`.
proof fn lemma_into(fl: Seq<Seq<u32>>, np: nat, a: int)
    requires
        border_setting(fl, np),
        0 <= a < loners(surface(fl, fl.len()), surface(fl, fl.len()).len() as int).len(),
    ensures
        ({
            let es = surface(fl, fl.len());
            let ls = loners(es, es.len() as int);
            &&& last_into(es, ls, a, ls.len() as int) is Some
            &&& 0 <= last_into(es, ls, a, ls.len() as int)->0 < ls.len()
            &&& boundary_source(es, ls, last_into(es, ls, a, ls.len() as int)->0) == Some(a)
        }),
{
    let nf = fl.len();
    let es = surface(fl, nf);
    let ls = loners(es, es.len() as int);
    let nl = ls.len() as int;
    lemma_loner_side(fl, np, a);
    let (f, i) = side_of(fl, nf, ls[a] as int);
    let (g, k) = lemma_border_before(fl, f, i);
    lemma_border_loner(fl, np, g, k);
    let i0 = loners(es, side_id(fl, g, k)).len() as int;
    lemma_loner_side(fl, np, i0);
    lemma_source(fl, np, i0);
    let s = boundary_source(es, ls, i0)->0;
    lemma_loner_side(fl, np, s);
    let (f4, i4) = side_of(fl, nf, ls[s] as int);
    lemma_border_apart(fl, f4, i4, f, i);
    assert forall|c: int| 0 <= c < nl && c != i0 implies #[trigger] boundary_source(es, ls, c) != Some(a) by {
        if boundary_source(es, ls, c) == Some(a) {
            lemma_source_apart(fl, np, c, i0);
        }
    }
    lemma_last_into(es, ls, a, nl, i0);
}

/// `m` is what [`Mesh::from_verts_faces`] builds from `points` and `fl`.
pub open spec fn builds<P>(points: Seq<P>, fl: Seq<Seq<u32>>, m: Mesh<P>) -> bool {
    &&& m.half_edges@ == with_boundary(surface(fl, fl.len()))
    &&& m.faces@ == face_starts(fl, fl.len())
    &&& m.verts@ == built_verts(points, surface(fl, fl.len()))
}

/// A manifold polygon list leaves every loner a way around the border, so
/// the boundary twins close into loops.
pub proof fn lemma_manifold_surface(fl: Seq<Seq<u32>>, np: nat)
    requires
        manifold(fl, np),
        total_sides(fl, fl.len()) <= u32::MAX,
    ensures
        boundary_closes(surface(fl, fl.len())),
        loners(surface(fl, fl.len()), surface(fl, fl.len()).len() as int).len() <= surface(
            fl,
            fl.len(),
        ).len(),
{
    let nf = fl.len();
    let es = surface(fl, nf);
    let ls = loners(es, es.len() as int);
    lemma_surface_sides(fl, nf, np);
    lemma_surface(fl, nf, np);
    lemma_loners(es, es.len() as int);
    assert forall|j: int| 0 <= j < ls.len() implies (#[trigger] boundary_source(es, ls, j)) is Some by {
        lemma_source(fl, np, j);
    }
}

/// The facts the well-formedness proof below works from.
proof fn lemma_wf_setting<P>(points: Seq<P>, fl: Seq<Seq<u32>>, m: Mesh<P>)
    requires
        manifold(fl, points.len()),
        2 * total_sides(fl, fl.len()) <= u32::MAX,
        builds(points, fl, m),
    ensures
        border_setting(fl, points.len()),
        ({
            let s = surface(fl, fl.len());
            let ls = loners(s, s.len() as int);
            &&& m.half_edges@.len() == s.len() + ls.len()
            &&& ls.len() <= s.len()
            &&& s.len() == total_sides(fl, fl.len())
            &&& m.faces@.len() == fl.len()
            &&& m.verts@.len() == points.len()
            &&& forall|e: int|
                0 <= e < s.len() ==> #[trigger] m.half_edges@[e] == with_boundary_twin(s, e)
            &&& forall|a: int|
                0 <= a < ls.len() ==> #[trigger] m.half_edges@[s.len() + a] == boundary_edge(
                    s,
                    ls,
                    a,
                )
            &&& forall|f: int|
                0 <= f < fl.len() ==> #[trigger] m.faces@[f] == total_sides(fl, f as nat) as u32
        }),
{
    let nf = fl.len();
    let np = points.len();
    let s = surface(fl, nf);
    let ls = loners(s, s.len() as int);
    lemma_surface_sides(fl, nf, np);
    lemma_surface(fl, nf, np);
    lemma_loners(s, s.len() as int);
    lemma_face_starts(fl, nf);
    assert forall|a: int| 0 <= a < ls.len() implies #[trigger] m.half_edges@[s.len() + a]
        == boundary_edge(s, ls, a) by {
        assert(with_boundary(s)[s.len() + a] == boundary_edge(s, ls, a));
    }
}

/// What a surface half edge of a built mesh looks like.
proof fn lemma_wf_surface_edge<P>(points: Seq<P>, fl: Seq<Seq<u32>>, m: Mesh<P>, e: int)
    requires
        manifold(fl, points.len()),
        2 * total_sides(fl, fl.len()) <= u32::MAX,
        builds(points, fl, m),
        0 <= e < surface(fl, fl.len()).len(),
    ensures
        ({
            let s = surface(fl, fl.len());
            let ls = loners(s, s.len() as int);
            let (f, i) = side_of(fl, fl.len(), e);
            let k = fl[f].len() as int;
            &&& is_side(fl, f, i)
            &&& e == side_id(fl, f, i)
            &&& m.half_edges@[e].origin == side_src(fl, f, i)
            &&& m.half_edges@[e].face == Some(f as u32)
            &&& m.half_edges@[e].next as int == side_id(fl, f, next_idx(i, k))
            &&& m.half_edges@[e].prev as int == side_id(fl, f, prev_idx(i, k))
            &&& side_id(fl, f, next_idx(i, k)) < s.len()
            &&& side_id(fl, f, prev_idx(i, k)) < s.len()
            &&& side_src(fl, f, i) < points.len()
            &&& dest(s, e) == side_dst(fl, f, i)
            &&& has_reverse(fl, f, i) ==> {
                let (g, kk) = reverse_side(fl, f, i);
                &&& reverses(fl, f, i, g, kk)
                &&& reverses(fl, g, kk, f, i)
                &&& reverse_side(fl, g, kk) == (f, i)
                &&& side_id(fl, g, kk) < s.len()
                &&& side_id(fl, g, kk) != e
                &&& m.half_edges@[e].twin == Some(side_id(fl, g, kk) as u32)
                &&& s[side_id(fl, g, kk)].twin is Some
            }
            &&& !has_reverse(fl, f, i) ==> {
                &&& loners(s, e).len() < ls.len()
                &&& ls[loners(s, e).len() as int] == e
                &&& m.half_edges@[e].twin == Some((s.len() + loners(s, e).len()) as u32)
            }
        }),
{
    let nf = fl.len();
    let np = points.len();
    let s = surface(fl, nf);
    lemma_wf_setting(points, fl, m);
    lemma_side_of(fl, nf, e);
    let (f, i) = side_of(fl, nf, e);
    let k = fl[f].len() as int;
    lemma_side_id_range(fl, f, next_idx(i, k), nf as int);
    lemma_side_id_range(fl, f, prev_idx(i, k), nf as int);
    lemma_built_ends(fl, nf, f, i);
    lemma_loner_is_border(fl, e);
    if has_reverse(fl, f, i) {
        let (g, kk) = reverse_side(fl, f, i);
        assert(reverses(fl, f, i, g, kk));
        lemma_reverse_unique(fl, f, i, g, kk);
        lemma_reverse_unique(fl, g, kk, f, i);
        lemma_side_id_apart(fl, f, i, g, kk);
        lemma_side_id_range(fl, g, kk, nf as int);
        assert(s[side_id(fl, g, kk)] == built_side(fl, nf as int, g, kk));
    } else {
        lemma_border_loner(fl, np, f, i);
    }
}

/// The indices stored in a built mesh are in range.
proof fn lemma_wf_indices<P>(points: Seq<P>, fl: Seq<Seq<u32>>, m: Mesh<P>)
    requires
        manifold(fl, points.len()),
        2 * total_sides(fl, fl.len()) <= u32::MAX,
        builds(points, fl, m),
    ensures
        m.indices_valid(),
{
    let nf = fl.len();
    let np = points.len();
    let s = surface(fl, nf);
    let ns = s.len() as int;
    let ls = loners(s, ns);
    let nl = ls.len() as int;
    let es = m.half_edges@;
    lemma_wf_setting(points, fl, m);
    // indices in range
    assert forall|e: int| 0 <= e < es.len() implies edge_in_range(
        #[trigger] es[e],
        es.len(),
        m.faces@.len(),
        m.verts@.len(),
    ) by {
        if e < ns {
            lemma_wf_surface_edge(points, fl, m, e);
        } else {
            let a = e - ns;
            lemma_loner_side(fl, np, a);
            lemma_source(fl, np, a);
            lemma_into(fl, np, a);
            let (f, i) = side_of(fl, nf, ls[a] as int);
            lemma_wf_surface_edge(points, fl, m, ls[a] as int);
        }
    }
    assert forall|f: int| 0 <= f < m.faces@.len() implies #[trigger] m.faces@[f] < es.len() by {
        assert(fl[f].len() > 0);
        lemma_side_id_range(fl, f, 0, nf as int);
    }
    assert(m.indices_valid());
}

/// In a built mesh `next` and `prev` are inverse.
proof fn lemma_wf_links<P>(points: Seq<P>, fl: Seq<Seq<u32>>, m: Mesh<P>)
    requires
        manifold(fl, points.len()),
        2 * total_sides(fl, fl.len()) <= u32::MAX,
        builds(points, fl, m),
    ensures
        links_ok(m.half_edges@),
{
    let nf = fl.len();
    let np = points.len();
    let s = surface(fl, nf);
    let ns = s.len() as int;
    let ls = loners(s, ns);
    let nl = ls.len() as int;
    let es = m.half_edges@;
    lemma_wf_setting(points, fl, m);
    // next and prev
    assert(links_ok(es)) by {
        reveal(links_ok);
        assert forall|e: int| #[trigger] is_edge(es, e) implies {
            &&& es[e].next < es.len()
            &&& es[e].prev < es.len()
            &&& es[es[e].next as int].prev == e
            &&& es[es[e].prev as int].next == e
        } by {
            if e < ns {
                lemma_wf_surface_edge(points, fl, m, e);
                let (f, i) = side_of(fl, nf, e);
                let k = fl[f].len() as int;
                let i2 = next_idx(i, k);
                let i0 = prev_idx(i, k);
                let n2 = side_id(fl, f, i2);
                let p0 = side_id(fl, f, i0);
                lemma_wf_surface_edge(points, fl, m, n2);
                lemma_wf_surface_edge(points, fl, m, p0);
                lemma_side_of(fl, nf, n2);
                lemma_side_of(fl, nf, p0);
                let (f2, j2) = side_of(fl, nf, n2);
                let (f0, j0) = side_of(fl, nf, p0);
                if f2 != f {
                    lemma_side_id_apart(fl, f, i2, f2, j2);
                }
                if f0 != f {
                    lemma_side_id_apart(fl, f, i0, f0, j0);
                }
            } else {
                let a = e - ns;
                lemma_into(fl, np, a);
                lemma_source(fl, np, a);
                let nx = last_into(s, ls, a, nl)->0;
                let src = boundary_source(s, ls, a)->0;
                lemma_into(fl, np, src);
                let back = last_into(s, ls, src, nl)->0;
                lemma_source_apart(fl, np, back, a);
                assert(es[ns + a] == boundary_edge(s, ls, a));
                assert(es[ns + nx] == boundary_edge(s, ls, nx));
                assert(es[ns + src] == boundary_edge(s, ls, src));
            }
        }
    }
}

/// In a built mesh the twins pair up.
proof fn lemma_wf_twins<P>(points: Seq<P>, fl: Seq<Seq<u32>>, m: Mesh<P>)
    requires
        manifold(fl, points.len()),
        2 * total_sides(fl, fl.len()) <= u32::MAX,
        builds(points, fl, m),
    ensures
        m.twins_ok(),
{
    let nf = fl.len();
    let np = points.len();
    let s = surface(fl, nf);
    let ns = s.len() as int;
    let ls = loners(s, ns);
    let nl = ls.len() as int;
    let es = m.half_edges@;
    lemma_wf_setting(points, fl, m);
    // twins
    assert(m.twins_ok()) by {
        reveal(Mesh::twins_ok);
        assert forall|e: int| #[trigger] is_edge(es, e) implies {
            &&& es[e].twin is Some
            &&& es[e].twin->0 != e
            &&& es[es[e].twin->0 as int].twin == Some(e as u32)
            &&& es[es[e].twin->0 as int].origin == es[es[e].next as int].origin
        } by {
            if e < ns {
                lemma_wf_surface_edge(points, fl, m, e);
                let (f, i) = side_of(fl, nf, e);
                let k = fl[f].len() as int;
                let n2 = side_id(fl, f, next_idx(i, k));
                lemma_wf_surface_edge(points, fl, m, n2);
                if has_reverse(fl, f, i) {
                    let (g, kk) = reverse_side(fl, f, i);
                    let t = side_id(fl, g, kk);
                    lemma_wf_surface_edge(points, fl, m, t);
                    lemma_side_of(fl, nf, t);
                    let (g2, k2) = side_of(fl, nf, t);
                    if g2 != g {
                        lemma_side_id_apart(fl, g, kk, g2, k2);
                    }
                } else {
                    let a = loners(s, e).len() as int;
                    lemma_loner_side(fl, np, a);
                }
            } else {
                let a = e - ns;
                lemma_loner_side(fl, np, a);
                lemma_into(fl, np, a);
                let nx = last_into(s, ls, a, nl)->0;
                lemma_source(fl, np, nx);
                lemma_wf_surface_edge(points, fl, m, ls[a] as int);
            }
        }
    }
}

/// In a built mesh the face labels follow the cycles.
proof fn lemma_wf_faces<P>(points: Seq<P>, fl: Seq<Seq<u32>>, m: Mesh<P>)
    requires
        manifold(fl, points.len()),
        2 * total_sides(fl, fl.len()) <= u32::MAX,
        builds(points, fl, m),
    ensures
        m.faces_ok(),
{
    let nf = fl.len();
    let np = points.len();
    let s = surface(fl, nf);
    let ns = s.len() as int;
    let ls = loners(s, ns);
    let nl = ls.len() as int;
    let es = m.half_edges@;
    lemma_wf_setting(points, fl, m);
    // faces
    assert(m.faces_ok()) by {
        reveal(Mesh::faces_ok);
        assert forall|e: int| #[trigger] is_edge(es, e) implies es[es[e].next as int].face
            == es[e].face by {
            if e < ns {
                lemma_wf_surface_edge(points, fl, m, e);
                let (f, i) = side_of(fl, nf, e);
                let k = fl[f].len() as int;
                let n2 = side_id(fl, f, next_idx(i, k));
                lemma_wf_surface_edge(points, fl, m, n2);
                lemma_side_of(fl, nf, n2);
                let (f2, j2) = side_of(fl, nf, n2);
                if f2 != f {
                    lemma_side_id_apart(fl, f, next_idx(i, k), f2, j2);
                }
            } else {
                let a = e - ns;
                lemma_into(fl, np, a);
                let nx = last_into(s, ls, a, nl)->0;
                assert(es[ns + a] == boundary_edge(s, ls, a));
                assert(es[ns + nx] == boundary_edge(s, ls, nx));
            }
        }
        assert forall|f: int| 0 <= f < m.faces@.len() implies es[#[trigger] m.faces@[f] as int].face
            == Some(f as u32) by {
            assert(fl[f].len() > 0);
            lemma_side_id_range(fl, f, 0, nf as int);
            let e = side_id(fl, f, 0);
            lemma_wf_surface_edge(points, fl, m, e);
            lemma_side_of(fl, nf, e);
            let (f2, j2) = side_of(fl, nf, e);
            if f2 != f {
                lemma_side_id_apart(fl, f, 0, f2, j2);
            }
        }
    }
}

/// In a built mesh each used vertex points at a half edge leaving it.
proof fn lemma_wf_verts<P>(points: Seq<P>, fl: Seq<Seq<u32>>, m: Mesh<P>)
    requires
        manifold(fl, points.len()),
        2 * total_sides(fl, fl.len()) <= u32::MAX,
        builds(points, fl, m),
    ensures
        m.verts_ok(),
{
    let nf = fl.len();
    let np = points.len();
    let s = surface(fl, nf);
    let ns = s.len() as int;
    let ls = loners(s, ns);
    let nl = ls.len() as int;
    let es = m.half_edges@;
    lemma_wf_setting(points, fl, m);
    // vertices
    assert(m.verts_ok()) by {
        reveal(Mesh::verts_ok);
        assert forall|e: int| #[trigger] is_edge(es, e) implies {
            let v = es[e].origin as int;
            &&& m.verts@[v].half_edge < es.len()
            &&& es[m.verts@[v].half_edge as int].origin == es[e].origin
        } by {
            let v = es[e].origin as int;
            if e < ns {
                lemma_wf_surface_edge(points, fl, m, e);
                lemma_last_origin(s, v, ns, e);
                lemma_wf_surface_edge(points, fl, m, last_origin(s, v, ns));
            } else {
                let a = e - ns;
                lemma_source(fl, np, a);
                let src = boundary_source(s, ls, a)->0;
                lemma_loner_side(fl, np, src);
                lemma_wf_surface_edge(points, fl, m, ls[src] as int);
                lemma_last_origin(s, v, ns, ls[src] as int);
                lemma_wf_surface_edge(points, fl, m, last_origin(s, v, ns));
            }
        }
    }
}

/// Building a mesh from a manifold polygon list, with or without border,
/// gives a well formed mesh: indices in range, next and prev inverse, every
/// half edge with a twin running the other way, face labels following the
/// polygons (none on the border) and every used vertex pointing at a half
/// edge that leaves it.
pub proof fn lemma_manifold_builds_wf<P>(points: Seq<P>, fl: Seq<Seq<u32>>, m: Mesh<P>)
    requires
        manifold(fl, points.len()),
        2 * total_sides(fl, fl.len()) <= u32::MAX,
        builds(points, fl, m),
    ensures
        m.wf(),
{
    lemma_wf_indices(points, fl, m);
    lemma_wf_links(points, fl, m);
    lemma_wf_twins(points, fl, m);
    lemma_wf_faces(points, fl, m);
    lemma_wf_verts(points, fl, m);
}
/// The origin, face and links of the half edge of each side of the first
/// `m` polygons; these do not depend on how the sides pair up.
proof fn lemma_surface_shape(fl: Seq<Seq<u32>>, m: nat, np: nat)
    requires
        polygons_ok(fl, np),
        m <= fl.len(),
        total_sides(fl, fl.len()) <= u32::MAX,
    ensures
        surface(fl, m).len() == total_sides(fl, m),
        forall|f: int, i: int|
            #![trigger surface(fl, m)[side_id(fl, f, i)]]
            f < m && is_side(fl, f, i) ==> {
                let h = surface(fl, m)[side_id(fl, f, i)];
                &&& h.origin == fl[f][i]
                &&& h.face == Some(f as u32)
                &&& h.next as int == side_id(fl, f, next_idx(i, fl[f].len() as int))
            },
    decreases m,
{
    if m > 0 {
        let m1 = (m - 1) as nat;
        lemma_surface_shape(fl, m1, np);
        let es = surface(fl, m1);
        let vs = fl[m1 as int];
        assert(surface(fl, m) == add_face(es, vs, m1 as int));
        assert forall|f: int, i: int| f < m && is_side(fl, f, i) implies {
            let h = #[trigger] surface(fl, m)[side_id(fl, f, i)];
            &&& h.origin == fl[f][i]
            &&& h.face == Some(f as u32)
            &&& h.next as int == side_id(fl, f, next_idx(i, fl[f].len() as int))
        } by {
            let k = fl[f].len() as int;
            lemma_side_id_range(fl, f, next_idx(i, k), fl.len() as int);
            if f < m1 {
                lemma_side_id_range(fl, f, i, m1 as int);
                assert(surface(fl, m)[side_id(fl, f, i)] == paired_old(es, vs, side_id(fl, f, i)));
                assert(es[side_id(fl, f, i)].origin == fl[f][i]);
            } else {
                assert(surface(fl, m)[side_id(fl, f, i)] == new_side(es, vs, m1 as int, i));
            }
        }
    }
}

/// Walking `j` steps along `next` from the first half edge of polygon `f`
/// reaches the half edge of side `j mod k`.
proof fn lemma_walk_polygon<P>(fl: Seq<Seq<u32>>, m: Mesh<P>, np: nat, f: int, j: nat)
    requires
        polygons_ok(fl, np),
        total_sides(fl, fl.len()) <= u32::MAX,
        m.half_edges@ == with_boundary(surface(fl, fl.len())),
        0 <= f < fl.len(),
    ensures
        next_iter(m.half_edges@, side_id(fl, f, 0), j) == side_id(
            fl,
            f,
            j as int % fl[f].len() as int,
        ),
    decreases j,
{
    let k = fl[f].len() as int;
    assert(k > 0);
    if j == 0 {
        vstd::arithmetic::div_mod::lemma_small_mod(0, k as nat);
    } else {
        lemma_walk_polygon(fl, m, np, f, (j - 1) as nat);
        let i = (j - 1) as int % k;
        vstd::arithmetic::div_mod::lemma_mod_bound((j - 1) as int, k);
        lemma_surface_shape(fl, fl.len(), np);
        lemma_side_id_range(fl, f, i, fl.len() as int);
        let s = surface(fl, fl.len());
        lemma_loners(s, s.len() as int);
        assert(m.half_edges@[side_id(fl, f, i)] == with_boundary_twin(s, side_id(fl, f, i)));
        assert(m.half_edges@[side_id(fl, f, i)].next == s[side_id(fl, f, i)].next);
        assert(next_iter(m.half_edges@, side_id(fl, f, 0), j) == m.half_edges@[side_id(fl, f, i)].next as int);
        assert(next_idx(i, k) == j as int % k) by {
            vstd::arithmetic::div_mod::lemma_mod_add_multiples_vanish((j - 1) as int, k);
            if i + 1 == k {
                vstd::arithmetic::div_mod::lemma_fundamental_div_mod((j - 1) as int, k);
                vstd::arithmetic::div_mod::lemma_mod_multiples_basic(((j - 1) as int / k) + 1, k);
                assert(j as int == k * (((j - 1) as int / k) + 1)) by (nonlinear_arith)
                    requires
                        (j - 1) as int == k * ((j - 1) as int / k) + i,
                        i + 1 == k,
                ;
            } else {
                vstd::arithmetic::div_mod::lemma_fundamental_div_mod((j - 1) as int, k);
                vstd::arithmetic::div_mod::lemma_mod_add_multiples_vanish(i + 1, k);
                assert(j as int == k * ((j - 1) as int / k) + (i + 1));
                vstd::arithmetic::div_mod::lemma_fundamental_div_mod_converse(
                    j as int,
                    k,
                    (j - 1) as int / k,
                    i + 1,
                );
            }
        }
    }
}

/// Reading the faces of a built mesh gives back the polygons: going round
/// face `f` from its stored half edge visits exactly `fl[f].len()` half
/// edges, and their origins are the polygon's vertices from the second one
/// on, ending with the first.
pub proof fn lemma_built_faces<P>(points: Seq<P>, fl: Seq<Seq<u32>>, m: Mesh<P>)
    requires
        polygons_ok(fl, points.len()),
        2 * total_sides(fl, fl.len()) <= u32::MAX,
        builds(points, fl, m),
    ensures
        forall|f: int|
            0 <= f < fl.len() ==> {
                &&& orbit_len(m.half_edges@, #[trigger] m.faces@[f] as int) == fl[f].len()
                &&& face_origins(m.half_edges@, m.faces@[f] as int) == fl[f].subrange(
                    1,
                    fl[f].len() as int,
                ).push(fl[f][0])
            },
{
    let np = points.len();
    let es = m.half_edges@;
    let s = surface(fl, fl.len());
    lemma_face_starts(fl, fl.len());
    lemma_surface_shape(fl, fl.len(), np);
    assert forall|f: int| 0 <= f < fl.len() implies {
        &&& orbit_len(es, #[trigger] m.faces@[f] as int) == fl[f].len()
        &&& face_origins(es, m.faces@[f] as int) == fl[f].subrange(1, fl[f].len() as int).push(
            fl[f][0],
        )
    } by {
        let k = fl[f].len() as int;
        assert(k > 0);
        let r = side_id(fl, f, 0);
        lemma_side_id_range(fl, f, 0, fl.len() as int);
        assert(m.faces@[f] as int == r);
        lemma_walk_polygon(fl, m, np, f, k as nat);
        assert(k % k == 0) by {
            vstd::arithmetic::div_mod::lemma_mod_self_0(k);
        }
        assert forall|j: nat| 0 < j < k implies #[trigger] next_iter(es, r, j) != r by {
            lemma_walk_polygon(fl, m, np, f, j);
            vstd::arithmetic::div_mod::lemma_small_mod(j, k as nat);
        }
        assert(returns_at(es, r, k as nat));
        lemma_returns_unique(es, r, k as nat, orbit_len(es, r));
        assert(returns_at(es, r, orbit_len(es, r))) by {
            assert(exists|kk: nat| returns_at(es, r, kk));
        }
        let want = fl[f].subrange(1, k).push(fl[f][0]);
        assert forall|j: int| 0 <= j < k implies #[trigger] face_origins(es, r)[j] == want[j] by {
            lemma_walk_polygon(fl, m, np, f, (j + 1) as nat);
            let i = (j + 1) % k;
            if j + 1 < k {
                vstd::arithmetic::div_mod::lemma_small_mod((j + 1) as nat, k as nat);
            } else {
                vstd::arithmetic::div_mod::lemma_mod_self_0(k);
            }
            lemma_side_id_range(fl, f, i, fl.len() as int);
            assert(es[side_id(fl, f, i)].origin == s[side_id(fl, f, i)].origin);
        }
        assert(face_origins(es, r) =~= want);
    }
}

} // verus!
