//! Building a mesh from vertex positions and a list of polygons.
use vstd::prelude::*;

use crate::manifold::{
    closed_manifold, lemma_built_faces, lemma_closed_builds_wf, lemma_manifold_builds_wf, manifold,
};
use crate::orbit::orbit_len;
use crate::traverse::face_origins;
use crate::mesh::{with_twin, HalfEdge, Mesh, Vertex};

verus! {

/// The position after `i` in a cycle of `k`.
pub open spec fn next_idx(i: int, k: int) -> int {
    if i + 1 == k {
        0
    } else {
        i + 1
    }
}

/// The position before `i` in a cycle of `k`.
pub open spec fn prev_idx(i: int, k: int) -> int {
    if i == 0 {
        k - 1
    } else {
        i - 1
    }
}

/// The vertex a half edge runs to: the origin of the half edge after it.
pub open spec fn dest(es: Seq<HalfEdge>, j: int) -> u32 {
    es[es[j].next as int].origin
}

/// Existing half edge `j`, still without a twin, runs opposite to side `i`
/// of the polygon `vs`.
pub open spec fn pairs(es: Seq<HalfEdge>, j: int, vs: Seq<u32>, i: int) -> bool {
    &&& es[j].twin is None
    &&& es[j].origin == vs[next_idx(i, vs.len() as int)]
    &&& vs[i] == dest(es, j)
}

/// The last side of `vs` before `u` that pairs with half edge `j`.
pub open spec fn last_side_for(es: Seq<HalfEdge>, j: int, vs: Seq<u32>, u: int) -> Option<int>
    decreases u,
{
    if u <= 0 {
        None
    } else if pairs(es, j, vs, u - 1) {
        Some(u - 1)
    } else {
        last_side_for(es, j, vs, u - 1)
    }
}

/// The last half edge before `u` that pairs with side `i` of `vs`.
pub open spec fn last_edge_for(es: Seq<HalfEdge>, i: int, vs: Seq<u32>, u: int) -> Option<int>
    decreases u,
{
    if u <= 0 {
        None
    } else if pairs(es, u - 1, vs, i) {
        Some(u - 1)
    } else {
        last_edge_for(es, i, vs, u - 1)
    }
}

/// A half edge that already has a twin pairs with no side.
pub proof fn lemma_paired_stays(es: Seq<HalfEdge>, j: int, vs: Seq<u32>, u: int)
    requires
        es[j].twin is Some,
    ensures
        last_side_for(es, j, vs, u) is None,
    decreases u,
{
    if u > 0 {
        lemma_paired_stays(es, j, vs, u - 1);
    }
}

/// Existing half edge `j` once the polygon `vs` has been added.
pub open spec fn paired_old(es: Seq<HalfEdge>, vs: Seq<u32>, j: int) -> HalfEdge {
    match last_side_for(es, j, vs, vs.len() as int) {
        Some(i) => with_twin(es[j], Some((es.len() + i) as u32)),
        None => es[j],
    }
}

/// The half edge for side `i` of polygon `vs`, the `f`-th face.
pub open spec fn new_side(es: Seq<HalfEdge>, vs: Seq<u32>, f: int, i: int) -> HalfEdge {
    let n = es.len() as int;
    let k = vs.len() as int;
    HalfEdge {
        origin: vs[i],
        twin: match last_edge_for(es, i, vs, n) {
            Some(j) => Some(j as u32),
            None => None,
        },
        face: Some(f as u32),
        next: (n + next_idx(i, k)) as u32,
        prev: (n + prev_idx(i, k)) as u32,
    }
}

/// The half edges after adding polygon `vs` as face `f`.
pub open spec fn add_face(es: Seq<HalfEdge>, vs: Seq<u32>, f: int) -> Seq<HalfEdge> {
    Seq::new(es.len(), |j: int| paired_old(es, vs, j)) + Seq::new(
        vs.len(),
        |i: int| new_side(es, vs, f, i),
    )
}

/// The half edges of the first `m` polygons of `fl`.
pub open spec fn surface(fl: Seq<Seq<u32>>, m: nat) -> Seq<HalfEdge>
    decreases m,
{
    if m == 0 {
        Seq::empty()
    } else {
        add_face(surface(fl, (m - 1) as nat), fl[m - 1], m - 1)
    }
}

/// Adds the half edges of polygon `verts` as face `f`, pairing each new side
/// with an earlier unpaired half edge running the other way.
fn add_face_edges(half_edges: &mut Vec<HalfEdge>, verts: &Vec<u32>, f: u32)
    requires
        verts@.len() > 0,
        old(half_edges)@.len() + verts@.len() <= u32::MAX,
        forall|j: int|
            0 <= j < old(half_edges)@.len() ==> #[trigger] old(half_edges)@[j].next < old(
                half_edges,
            )@.len(),
    ensures
        final(half_edges)@ == add_face(old(half_edges)@, verts@, f as int),
{
    let ghost es = half_edges@;
    let ghost vs = verts@;
    let n = half_edges.len();
    let k = verts.len();
    let mut new_edges: Vec<HalfEdge> = Vec::new();
    for i in 0..k
        invariant
            k == vs.len(),
            n == es.len(),
            n + k <= u32::MAX,
            vs == verts@,
            new_edges@.len() == i,
            forall|a: int|
                0 <= a < i ==> #[trigger] new_edges@[a] == (HalfEdge {
                    origin: vs[a],
                    twin: None,
                    face: Some(f),
                    next: (n + next_idx(a, k as int)) as u32,
                    prev: (n + prev_idx(a, k as int)) as u32,
                }),
    {
        let next = if i + 1 == k {
            n
        } else {
            n + i + 1
        };
        let prev = if i == 0 {
            n + k - 1
        } else {
            n + i - 1
        };
        new_edges.push(
            HalfEdge {
                origin: verts[i],
                twin: None,
                face: Some(f),
                next: next as u32,
                prev: prev as u32,
            },
        );
    }
    let mut next_origins: Vec<u32> = Vec::new();
    for j in 0..n
        invariant
            n == es.len(),
            half_edges@ == es,
            forall|a: int| 0 <= a < n ==> #[trigger] es[a].next < n,
            next_origins@.len() == j,
            forall|a: int| 0 <= a < j ==> #[trigger] next_origins@[a] == dest(es, a),
    {
        let nx = half_edges[j].next;
        next_origins.push(half_edges[nx as usize].origin);
    }
    for i_old in 0..n
        invariant
            n == es.len(),
            k == vs.len(),
            vs == verts@,
            k > 0,
            n + k <= u32::MAX,
            half_edges@.len() == n,
            next_origins@.len() == n,
            forall|a: int| 0 <= a < n ==> #[trigger] next_origins@[a] == dest(es, a),
            forall|a: int| 0 <= a < i_old ==> #[trigger] half_edges@[a] == paired_old(es, vs, a),
            forall|a: int| i_old <= a < n ==> #[trigger] half_edges@[a] == es[a],
            new_edges@.len() == k,
            forall|a: int|
                0 <= a < k ==> #[trigger] new_edges@[a] == (HalfEdge {
                    twin: match last_edge_for(es, a, vs, i_old as int) {
                        Some(j) => Some(j as u32),
                        None => None,
                    },
                    ..new_side(es, vs, f as int, a)
                }),
    {
        if half_edges[i_old].twin.is_none() {
            let mut old = half_edges[i_old];
            for i_new in 0..k
                invariant
                    n == es.len(),
                    k == vs.len(),
                    vs == verts@,
                    k > 0,
                    n + k <= u32::MAX,
                    0 <= i_old < n,
                    es[i_old as int].twin is None,
                    old.origin == es[i_old as int].origin,
                    old.next == es[i_old as int].next,
                    next_origins@.len() == n,
                    forall|a: int| 0 <= a < n ==> #[trigger] next_origins@[a] == dest(es, a),
                    old == match last_side_for(es, i_old as int, vs, i_new as int) {
                        Some(i) => with_twin(es[i_old as int], Some((n + i) as u32)),
                        None => es[i_old as int],
                    },
                    new_edges@.len() == k,
                    forall|a: int|
                        0 <= a < k ==> #[trigger] new_edges@[a] == (HalfEdge {
                            twin: match last_edge_for(
                                es,
                                a,
                                vs,
                                if a < i_new {
                                    i_old + 1
                                } else {
                                    i_old as int
                                },
                            ) {
                                Some(j) => Some(j as u32),
                                None => None,
                            },
                            ..new_side(es, vs, f as int, a)
                        }),
            {
                let nn = if i_new + 1 == k {
                    0
                } else {
                    i_new + 1
                };
                let nn_origin = new_edges[nn].origin;
                if old.origin == nn_origin && new_edges[i_new].origin == next_origins[i_old] {
                    let mut e = new_edges[i_new];
                    e.twin = Some(i_old as u32);
                    new_edges.set(i_new, e);
                    old.twin = Some((i_new + n) as u32);
                }
            }
            half_edges.set(i_old, old);
        } else {
            proof {
                lemma_paired_stays(es, i_old as int, vs, k as int);
            }
        }
    }
    for i in 0..k
        invariant
            n == es.len(),
            k == vs.len(),
            half_edges@.len() == n + i,
            forall|a: int| 0 <= a < n ==> #[trigger] half_edges@[a] == paired_old(es, vs, a),
            forall|a: int| n <= a < n + i ==> #[trigger] half_edges@[a] == new_side(es, vs, f as int, a - n),
            new_edges@.len() == k,
            forall|a: int| 0 <= a < k ==> #[trigger] new_edges@[a] == new_side(es, vs, f as int, a),
    {
        half_edges.push(new_edges[i]);
    }
    proof {
        assert(half_edges@ =~= add_face(es, vs, f as int));
    }
}


/// The half edges among the first `u` that have no twin, in order.
pub open spec fn loners(es: Seq<HalfEdge>, u: int) -> Seq<u32>
    decreases u,
{
    if u <= 0 {
        Seq::empty()
    } else if es[u - 1].twin is None {
        loners(es, u - 1).push((u - 1) as u32)
    } else {
        loners(es, u - 1)
    }
}

/// Half edge `j` with the boundary twin it gets when it has none.
pub open spec fn with_boundary_twin(es: Seq<HalfEdge>, j: int) -> HalfEdge {
    if es[j].twin is None {
        with_twin(es[j], Some((es.len() + loners(es, j).len()) as u32))
    } else {
        es[j]
    }
}

/// The first of the unpaired half edges `ls`, from position `m` on, that
/// leaves from vertex `o`.
pub open spec fn first_from(es: Seq<HalfEdge>, ls: Seq<u32>, o: u32, m: int) -> Option<int>
    decreases ls.len() - m,
{
    if m >= ls.len() || m < 0 {
        None
    } else if es[ls[m] as int].origin == o {
        Some(m)
    } else {
        first_from(es, ls, o, m + 1)
    }
}

/// The unpaired half edge whose boundary twin comes before that of the
/// `j`-th unpaired half edge.
pub open spec fn boundary_source(es: Seq<HalfEdge>, ls: Seq<u32>, j: int) -> Option<int> {
    first_from(es, ls, dest(es, ls[j] as int), 0)
}

/// The last `i < u` whose [`boundary_source`] is `m`.
pub open spec fn last_into(es: Seq<HalfEdge>, ls: Seq<u32>, m: int, u: int) -> Option<int>
    decreases u,
{
    if u <= 0 {
        None
    } else if boundary_source(es, ls, u - 1) == Some(m) {
        Some(u - 1)
    } else {
        last_into(es, ls, m, u - 1)
    }
}

pub open spec fn boundary_prev(es: Seq<HalfEdge>, ls: Seq<u32>, j: int) -> u32 {
    (es.len() + boundary_source(es, ls, j)->0) as u32
}

pub open spec fn boundary_next(es: Seq<HalfEdge>, ls: Seq<u32>, j: int) -> u32 {
    match last_into(es, ls, j, ls.len() as int) {
        Some(i) => (es.len() + i) as u32,
        None => boundary_prev(es, ls, j),
    }
}

/// The boundary twin of the `j`-th unpaired half edge.
pub open spec fn boundary_edge(es: Seq<HalfEdge>, ls: Seq<u32>, j: int) -> HalfEdge {
    HalfEdge {
        origin: dest(es, ls[j] as int),
        twin: Some(ls[j]),
        face: None,
        next: boundary_next(es, ls, j),
        prev: boundary_prev(es, ls, j),
    }
}

/// Every unpaired half edge ends where some unpaired half edge starts.
pub open spec fn boundary_closes(es: Seq<HalfEdge>) -> bool {
    let ls = loners(es, es.len() as int);
    forall|j: int| 0 <= j < ls.len() ==> (#[trigger] boundary_source(es, ls, j)) is Some
}

/// The half edges once every unpaired one has a boundary twin.
pub open spec fn with_boundary(es: Seq<HalfEdge>) -> Seq<HalfEdge> {
    let ls = loners(es, es.len() as int);
    Seq::new(es.len(), |j: int| with_boundary_twin(es, j)) + Seq::new(
        ls.len(),
        |j: int| boundary_edge(es, ls, j),
    )
}

pub proof fn lemma_loners(es: Seq<HalfEdge>, u: int)
    requires
        0 <= u <= es.len(),
        es.len() <= u32::MAX,
    ensures
        loners(es, u).len() <= u,
        forall|v: int| 0 <= v <= u ==> #[trigger] loners(es, v).len() <= loners(es, u).len(),
        forall|a: int| 0 <= a < loners(es, u).len() ==> #[trigger] loners(es, u)[a] < u,
        forall|a: int|
            0 <= a < loners(es, u).len() ==> es[#[trigger] loners(es, u)[a] as int].twin is None,
        forall|a: int|
            0 <= a < loners(es, u).len() ==> loners(es, #[trigger] loners(es, u)[a] as int).len()
                == a,
    decreases u,
{
    if u > 0 {
        lemma_loners(es, u - 1);
    }
}

/// Gives every unpaired half edge a boundary twin, linking the boundary
/// twins into loops.
fn add_boundary(half_edges: &mut Vec<HalfEdge>)
    requires
        forall|j: int|
            0 <= j < old(half_edges)@.len() ==> #[trigger] old(half_edges)@[j].next < old(
                half_edges,
            )@.len(),
        old(half_edges)@.len() + loners(old(half_edges)@, old(half_edges)@.len() as int).len()
            <= u32::MAX,
        boundary_closes(old(half_edges)@),
    ensures
        final(half_edges)@ == with_boundary(old(half_edges)@),
{
    let ghost es = half_edges@;
    let ghost ls = loners(es, es.len() as int);
    let ns = half_edges.len();
    proof {
        lemma_loners(es, ns as int);
    }
    assert(ns <= u32::MAX);
    let mut lone: Vec<u32> = Vec::new();
    for j in 0..ns
        invariant
            ns == es.len(),
            ls == loners(es, ns as int),
            ns + ls.len() <= u32::MAX,
            half_edges@.len() == ns,
            lone@ == loners(es, j as int),
            forall|a: int| 0 <= a < j ==> #[trigger] half_edges@[a] == with_boundary_twin(es, a),
            forall|a: int| j <= a < ns ==> #[trigger] half_edges@[a] == es[a],
    {
        proof {
            lemma_loners(es, ns as int);
            assert(loners(es, j as int).len() <= ls.len());
        }
        if half_edges[j].twin.is_none() {
            let mut h = half_edges[j];
            h.twin = Some((ns + lone.len()) as u32);
            half_edges.set(j, h);
            lone.push(j as u32);
        }
    }
    let nl = lone.len();
    let mut prevs: Vec<u32> = Vec::new();
    for j in 0..nl
        invariant
            ns == es.len(),
            nl == ls.len(),
            lone@ == ls,
            ls == loners(es, ns as int),
            ns + nl <= u32::MAX,
            boundary_closes(es),
            half_edges@.len() == ns,
            forall|a: int| 0 <= a < ns ==> #[trigger] half_edges@[a] == with_boundary_twin(es, a),
            forall|a: int| 0 <= a < ns ==> #[trigger] es[a].next < ns,
            forall|a: int| 0 <= a < nl ==> #[trigger] ls[a] < ns,
            prevs@.len() == j,
            forall|a: int| 0 <= a < j ==> #[trigger] prevs@[a] == boundary_prev(es, ls, a),
            forall|a: int| 0 <= a < j ==> 0 <= (#[trigger] boundary_source(es, ls, a))->0 < nl,
    {
        let lj = lone[j];
        let d = half_edges[half_edges[lj as usize].next as usize].origin;
        proof {
            assert(d == dest(es, ls[j as int] as int));
            assert(boundary_source(es, ls, j as int) is Some);
        }
        let mut m: usize = 0;
        while m < nl && half_edges[lone[m] as usize].origin != d
            invariant
                ns == es.len(),
                nl == ls.len(),
                lone@ == ls,
                half_edges@.len() == ns,
                forall|a: int| 0 <= a < ns ==> #[trigger] half_edges@[a] == with_boundary_twin(es, a),
                forall|a: int| 0 <= a < nl ==> #[trigger] ls[a] < ns,
                m <= nl,
                first_from(es, ls, d, 0) == first_from(es, ls, d, m as int),
                first_from(es, ls, d, 0) is Some,
            decreases nl - m,
        {
            m = m + 1;
        }
        proof {
            assert(m < nl);
        }
        prevs.push((ns + m) as u32);
    }
    let mut nexts: Vec<u32> = Vec::new();
    for j in 0..nl
        invariant
            nl == prevs@.len(),
            nexts@.len() == j,
            forall|a: int| 0 <= a < j ==> #[trigger] nexts@[a] == prevs@[a],
    {
        nexts.push(prevs[j]);
    }
    for i in 0..nl
        invariant
            ns == es.len(),
            nl == ls.len(),
            ls == loners(es, ns as int),
            ns + nl <= u32::MAX,
            prevs@.len() == nl,
            nexts@.len() == nl,
            forall|a: int| 0 <= a < nl ==> #[trigger] prevs@[a] == boundary_prev(es, ls, a),
            forall|a: int| 0 <= a < nl ==> 0 <= (#[trigger] boundary_source(es, ls, a))->0 < nl,
            forall|a: int| 0 <= a < nl ==> (#[trigger] boundary_source(es, ls, a)) is Some,
            forall|m: int|
                0 <= m < nl ==> #[trigger] nexts@[m] == match last_into(es, ls, m, i as int) {
                    Some(a) => (ns + a) as u32,
                    None => boundary_prev(es, ls, m),
                },
    {
        proof {
            let src = boundary_source(es, ls, i as int)->0;
            assert(src < nl);
            assert(prevs@[i as int] == boundary_prev(es, ls, i as int));
            assert(boundary_prev(es, ls, i as int) == (es.len() + src) as u32);
            assert(prevs@[i as int] == ns + src);
        }
        let target = prevs[i] - ns as u32;
        nexts.set(target as usize, (i + ns) as u32);
    }
    let ghost wt = half_edges@;
    for j in 0..nl
        invariant
            ns == es.len(),
            nl == ls.len(),
            lone@ == ls,
            ls == loners(es, ns as int),
            prevs@.len() == nl,
            nexts@.len() == nl,
            forall|a: int| 0 <= a < nl ==> #[trigger] prevs@[a] == boundary_prev(es, ls, a),
            forall|a: int| 0 <= a < nl ==> #[trigger] nexts@[a] == boundary_next(es, ls, a),
            forall|a: int| 0 <= a < ns ==> #[trigger] es[a].next < ns,
            forall|a: int| 0 <= a < nl ==> #[trigger] ls[a] < ns,
            half_edges@.len() == ns + j,
            forall|a: int| 0 <= a < ns ==> #[trigger] half_edges@[a] == with_boundary_twin(es, a),
            forall|a: int| ns <= a < ns + j ==> #[trigger] half_edges@[a] == boundary_edge(es, ls, a - ns),
    {
        let old_id = lone[j];
        let old_next = half_edges[old_id as usize].next;
        let origin = half_edges[old_next as usize].origin;
        half_edges.push(
            HalfEdge { origin, face: None, twin: Some(old_id), next: nexts[j], prev: prevs[j] },
        );
    }
    proof {
        assert(half_edges@ =~= with_boundary(es));
    }
}


/// The last of the first `u` half edges that leaves from `v`, or `0`.
pub open spec fn last_origin(es: Seq<HalfEdge>, v: int, u: int) -> int
    decreases u,
{
    if u <= 0 {
        0
    } else if es[u - 1].origin == v {
        u - 1
    } else {
        last_origin(es, v, u - 1)
    }
}

/// The number of sides of the first `m` polygons.
pub open spec fn total_sides(fl: Seq<Seq<u32>>, m: nat) -> nat
    decreases m,
{
    if m == 0 {
        0
    } else {
        total_sides(fl, (m - 1) as nat) + fl[m - 1].len()
    }
}

/// The first half edge of each of the first `m` polygons.
pub open spec fn face_starts(fl: Seq<Seq<u32>>, m: nat) -> Seq<u32>
    decreases m,
{
    if m == 0 {
        Seq::empty()
    } else {
        face_starts(fl, (m - 1) as nat).push(total_sides(fl, (m - 1) as nat) as u32)
    }
}

/// The vertices: each position with the last surface half edge leaving it.
pub open spec fn built_verts<P>(points: Seq<P>, es: Seq<HalfEdge>) -> Seq<Vertex<P>> {
    Seq::new(
        points.len(),
        |v: int| Vertex { coord: points[v], half_edge: last_origin(es, v, es.len() as int) as u32 },
    )
}

/// Every polygon has a side and names only existing vertices.
pub open spec fn polygons_ok(fl: Seq<Seq<u32>>, n_points: nat) -> bool {
    forall|f: int|
        0 <= f < fl.len() ==> {
            &&& (#[trigger] fl[f]).len() > 0
            &&& forall|i: int| 0 <= i < fl[f].len() ==> #[trigger] fl[f][i] < n_points
        }
}

pub proof fn lemma_surface(fl: Seq<Seq<u32>>, m: nat, n_points: nat)
    requires
        polygons_ok(fl, n_points),
        m <= fl.len(),
    ensures
        surface(fl, m).len() == total_sides(fl, m),
        forall|j: int| 0 <= j < surface(fl, m).len() ==> #[trigger] surface(fl, m)[j].next < surface(
            fl,
            m,
        ).len(),
        forall|j: int| 0 <= j < surface(fl, m).len() ==> #[trigger] surface(fl, m)[j].origin < n_points,
        forall|j: int| 0 <= j < surface(fl, m).len() ==> #[trigger] surface(fl, m)[j].prev < surface(
            fl,
            m,
        ).len(),
    decreases m,
{
    if m > 0 {
        lemma_surface(fl, (m - 1) as nat, n_points);
        let es = surface(fl, (m - 1) as nat);
        let vs = fl[m - 1];
        assert(vs.len() > 0);
        let s = surface(fl, m);
        assert forall|j: int| 0 <= j < s.len() implies #[trigger] s[j].next < s.len() && s[j].origin
            < n_points && s[j].prev < s.len() by {
            if j < es.len() {
                assert(s[j] == paired_old(es, vs, j));
            } else {
                assert(s[j] == new_side(es, vs, m - 1, j - es.len()));
                assert(vs[j - es.len()] < n_points);
            }
        }
    }
}

pub proof fn lemma_total_sides_mono(fl: Seq<Seq<u32>>, a: nat, b: nat)
    requires
        a <= b <= fl.len(),
    ensures
        total_sides(fl, a) <= total_sides(fl, b),
    decreases b,
{
    if a < b {
        lemma_total_sides_mono(fl, a, (b - 1) as nat);
    }
}

/// For each vertex, the last half edge that leaves from it.
fn vertex_half_edges(half_edges: &Vec<HalfEdge>, n_points: usize) -> (r: Vec<u32>)
    requires
        half_edges@.len() <= u32::MAX,
        forall|j: int| 0 <= j < half_edges@.len() ==> #[trigger] half_edges@[j].origin < n_points,
    ensures
        r@.len() == n_points,
        forall|v: int|
            0 <= v < n_points ==> #[trigger] r@[v] == last_origin(
                half_edges@,
                v,
                half_edges@.len() as int,
            ) as u32,
{
    let mut r: Vec<u32> = Vec::new();
    for v in 0..n_points
        invariant
            r@.len() == v,
            forall|a: int| 0 <= a < v ==> #[trigger] r@[a] == 0,
    {
        r.push(0);
    }
    let n = half_edges.len();
    for i in 0..n
        invariant
            n == half_edges@.len(),
            n <= u32::MAX,
            r@.len() == n_points,
            forall|j: int| 0 <= j < n ==> #[trigger] half_edges@[j].origin < n_points,
            forall|v: int|
                0 <= v < n_points ==> #[trigger] r@[v] == last_origin(half_edges@, v, i as int)
                    as u32,
    {
        let o = half_edges[i].origin;
        r.set(o as usize, i as u32);
    }
    r
}

/// The half edges and face starts of the polygons in `face_list`, before
/// any boundary is added.
fn build_surface(face_list: &Vec<Vec<u32>>, n_points: usize) -> (r: (Vec<HalfEdge>, Vec<u32>))
    requires
        polygons_ok(face_list.deep_view(), n_points as nat),
        2 * total_sides(face_list.deep_view(), face_list@.len()) <= u32::MAX,
    ensures
        r.0@ == surface(face_list.deep_view(), face_list@.len()),
        r.1@ == face_starts(face_list.deep_view(), face_list@.len()),
{
    let ghost fl = face_list.deep_view();
    let ghost np = n_points as nat;
    let nf = face_list.len();
    let mut half_edges: Vec<HalfEdge> = Vec::new();
    let mut faces: Vec<u32> = Vec::new();
    proof {
        lemma_total_sides_mono(fl, 0, nf as nat);
    }
    for f in 0..nf
        invariant
            nf == fl.len(),
            fl == face_list.deep_view(),
            polygons_ok(fl, np),
            2 * total_sides(fl, nf as nat) <= u32::MAX,
            half_edges@ == surface(fl, f as nat),
            faces@ == face_starts(fl, f as nat),
    {
        proof {
            lemma_surface(fl, f as nat, np);
            lemma_total_sides_mono(fl, (f + 1) as nat, nf as nat);
            assert(face_list@[f as int]@ == fl[f as int]);
            assert(fl[f as int].len() > 0);
            // at most one face per half edge, so the id fits
            lemma_total_sides_mono(fl, 0, f as nat);
        }
        faces.push(half_edges.len() as u32);
        add_face_edges(&mut half_edges, &face_list[f], f as u32);
    }
    (half_edges, faces)
}

/// Whether [`boundary_closes`] holds: every half edge without a twin ends
/// where some half edge without a twin starts.
fn boundary_closes_check(half_edges: &Vec<HalfEdge>) -> (r: bool)
    requires
        half_edges@.len() <= u32::MAX,
        forall|j: int|
            0 <= j < half_edges@.len() ==> #[trigger] half_edges@[j].next < half_edges@.len(),
    ensures
        r == boundary_closes(half_edges@),
{
    let ghost es = half_edges@;
    let ghost ls = loners(es, es.len() as int);
    let ns = half_edges.len();
    proof {
        lemma_loners(es, ns as int);
    }
    let mut lone: Vec<u32> = Vec::new();
    for j in 0..ns
        invariant
            ns == es.len(),
            half_edges@ == es,
            lone@ == loners(es, j as int),
    {
        if half_edges[j].twin.is_none() {
            lone.push(j as u32);
        }
    }
    let nl = lone.len();
    for j in 0..nl
        invariant
            ns == es.len(),
            nl == ls.len(),
            lone@ == ls,
            ls == loners(es, es.len() as int),
            half_edges@ == es,
            forall|a: int| 0 <= a < ns ==> #[trigger] es[a].next < ns,
            forall|a: int| 0 <= a < nl ==> #[trigger] ls[a] < ns,
            forall|a: int| 0 <= a < j ==> (#[trigger] boundary_source(es, ls, a)) is Some,
    {
        let lj = lone[j];
        let d = half_edges[half_edges[lj as usize].next as usize].origin;
        let mut m: usize = 0;
        while m < nl && half_edges[lone[m] as usize].origin != d
            invariant
                ns == es.len(),
                nl == ls.len(),
                lone@ == ls,
                half_edges@ == es,
                forall|a: int| 0 <= a < nl ==> #[trigger] ls[a] < ns,
                m <= nl,
                first_from(es, ls, d, 0) == first_from(es, ls, d, m as int),
            decreases nl - m,
        {
            m = m + 1;
        }
        if m == nl {
            proof {
                assert(d == dest(es, ls[j as int] as int));
                assert(boundary_source(es, ls, j as int) is None);
            }
            return false;
        }
    }
    true
}

impl<P> Mesh<P> {
    /// The mesh of the half edges `half_edges` of some polygons, with
    /// their face starts `faces`, once the boundary is added and the
    /// vertices point at their half edges.
    fn with_boundary_and_verts(points: Vec<P>, half_edges: Vec<HalfEdge>, faces: Vec<u32>) -> (r:
        Self)
        requires
            forall|j: int|
                0 <= j < half_edges@.len() ==> #[trigger] half_edges@[j].next < half_edges@.len(),
            forall|j: int|
                0 <= j < half_edges@.len() ==> #[trigger] half_edges@[j].origin < points@.len(),
            half_edges@.len() + loners(half_edges@, half_edges@.len() as int).len() <= u32::MAX,
            boundary_closes(half_edges@),
        ensures
            r.half_edges@ == with_boundary(half_edges@),
            r.faces@ == faces@,
            r.verts@ == built_verts(points@, half_edges@),
    {
        let ghost surf = half_edges@;
        let ghost np = points@.len();
        let ghost p0 = points@;
        proof {
            lemma_loners(surf, surf.len() as int);
        }
        let hv = vertex_half_edges(&half_edges, points.len());
        let mut pts = points;
        let mut rev: Vec<P> = Vec::new();
        while pts.len() > 0
            invariant
                np == p0.len(),
                pts@.len() + rev@.len() == np,
                pts@ == p0.subrange(0, pts@.len() as int),
                forall|b: int| 0 <= b < rev@.len() ==> #[trigger] rev@[b] == p0[np - 1 - b],
            decreases pts@.len(),
        {
            let c = pts.pop().unwrap();
            rev.push(c);
        }
        let mut verts: Vec<Vertex<P>> = Vec::new();
        while rev.len() > 0
            invariant
                np == p0.len(),
                verts@.len() + rev@.len() == np,
                hv@.len() == np,
                forall|b: int| 0 <= b < rev@.len() ==> #[trigger] rev@[b] == p0[np - 1 - b],
                forall|a: int|
                    0 <= a < verts@.len() ==> #[trigger] verts@[a] == built_verts(p0, surf)[a],
                forall|v: int|
                    0 <= v < np ==> #[trigger] hv@[v] == last_origin(surf, v, surf.len() as int) as u32,
            decreases rev@.len(),
        {
            let c = rev.pop().unwrap();
            let i = verts.len();
            verts.push(Vertex { coord: c, half_edge: hv[i] });
        }
        proof {
            assert(verts@ =~= built_verts(p0, surf));
        }
        let mut half_edges = half_edges;
        add_boundary(&mut half_edges);
        Mesh { verts, faces, half_edges }
    }

    /// Builds the half-edge form of the polygons in `face_list`, each a list
    /// of indices into `points`. Sides of different polygons that run
    /// opposite ways between the same vertices become twins; every other side
    /// gets a twin on the boundary, and the boundary twins are linked into
    /// loops. From a manifold polygon list the result is well formed.
    pub fn from_verts_faces(points: Vec<P>, face_list: Vec<Vec<u32>>) -> (r: Self)
        requires
            polygons_ok(face_list.deep_view(), points@.len()),
            2 * total_sides(face_list.deep_view(), face_list@.len()) <= u32::MAX,
            boundary_closes(surface(face_list.deep_view(), face_list@.len())),
        ensures
            r.half_edges@ == with_boundary(surface(face_list.deep_view(), face_list@.len())),
            r.faces@ == face_starts(face_list.deep_view(), face_list@.len()),
            r.verts@ == built_verts(points@, surface(face_list.deep_view(), face_list@.len())),
            manifold(face_list.deep_view(), points@.len()) ==> r.wf(),
            closed_manifold(face_list.deep_view(), points@.len()) ==> forall|e: int|
                0 <= e < r.half_edges@.len() ==> (#[trigger] r.half_edges@[e]).face is Some,
            forall|f: int|
                0 <= f < face_list@.len() ==> {
                    &&& orbit_len(r.half_edges@, #[trigger] r.faces@[f] as int)
                        == face_list@[f]@.len()
                    &&& face_origins(r.half_edges@, r.faces@[f] as int) == face_list@[f]@.subrange(
                        1,
                        face_list@[f]@.len() as int,
                    ).push(face_list@[f]@[0])
                },
    {
        let ghost fl = face_list.deep_view();
        let ghost np = points@.len();
        let ghost p0 = points@;
        let nf = face_list.len();
        let (half_edges, faces) = build_surface(&face_list, points.len());
        proof {
            lemma_surface(fl, nf as nat, np);
            lemma_loners(half_edges@, half_edges@.len() as int);
        }
        let r = Mesh::with_boundary_and_verts(points, half_edges, faces);
        proof {
            lemma_built_faces(p0, fl, r);
            assert forall|f: int| 0 <= f < face_list@.len() implies #[trigger] face_list@[f]@ == fl[f] by {}
            if manifold(fl, np) {
                lemma_manifold_builds_wf(p0, fl, r);
            }
            if closed_manifold(fl, np) {
                lemma_closed_builds_wf(p0, fl, r);
            }
        }
        r
    }
    /// [`Mesh::from_verts_faces`] where it applies, `None` on the inputs it
    /// does not take: an empty polygon, a vertex index out of range, more
    /// sides than fit twice in a `u32`, or sides without an opposite side
    /// that do not close into loops.
    pub fn try_from_verts_faces(points: Vec<P>, face_list: Vec<Vec<u32>>) -> (r: Option<Self>)
        ensures
            r is Some <==> {
                &&& polygons_ok(face_list.deep_view(), points@.len())
                &&& 2 * total_sides(face_list.deep_view(), face_list@.len()) <= u32::MAX
                &&& boundary_closes(surface(face_list.deep_view(), face_list@.len()))
            },
            r matches Some(m) ==> {
                &&& m.half_edges@ == with_boundary(
                    surface(face_list.deep_view(), face_list@.len()),
                )
                &&& m.faces@ == face_starts(face_list.deep_view(), face_list@.len())
                &&& m.verts@ == built_verts(
                    points@,
                    surface(face_list.deep_view(), face_list@.len()),
                )
                &&& manifold(face_list.deep_view(), points@.len()) ==> m.wf()
            },
    {
        let ghost fl = face_list.deep_view();
        let ghost np = points@.len();
        let nf = face_list.len();
        let np_exec = points.len();
        let limit: usize = 2147483647;
        let mut total: usize = 0;
        for f in 0..nf
            invariant
                nf == fl.len(),
                fl == face_list.deep_view(),
                np == np_exec,
                np == points@.len(),
                limit == 2147483647,
                total == total_sides(fl, f as nat),
                total <= limit,
                polygons_ok(fl.subrange(0, f as int), np),
        {
            proof {
                assert(face_list@[f as int]@ == fl[f as int]);
            }
            let k = face_list[f].len();
            if k == 0 {
                proof {
                    assert(fl[f as int].len() == 0);
                }
                return None;
            }
            for i in 0..k
                invariant
                    k == fl[f as int].len(),
                    0 <= f < fl.len(),
                    fl == face_list.deep_view(),
                    np == np_exec,
                    np == points@.len(),
                    forall|a: int| 0 <= a < i ==> #[trigger] fl[f as int][a] < np,
            {
                proof {
                    assert(face_list@[f as int]@ == fl[f as int]);
                }
                if face_list[f][i] as usize >= np_exec {
                    proof {
                        assert(fl[f as int][i as int] >= np);
                        assert(!polygons_ok(fl, np));
                    }
                    return None;
                }
            }
            if k > limit - total {
                proof {
                    lemma_total_sides_mono(fl, (f + 1) as nat, nf as nat);
                }
                return None;
            }
            total = total + k;
            proof {
                let sub = fl.subrange(0, f + 1);
                assert forall|g: int| 0 <= g < sub.len() implies {
                    &&& (#[trigger] sub[g]).len() > 0
                    &&& forall|i: int| 0 <= i < sub[g].len() ==> #[trigger] sub[g][i] < np
                } by {
                    if g < f {
                        assert(sub[g] == fl.subrange(0, f as int)[g]);
                    }
                }
            }
        }
        proof {
            assert(fl.subrange(0, nf as int) == fl);
        }
        let (half_edges, faces) = build_surface(&face_list, points.len());
        proof {
            lemma_surface(fl, nf as nat, np);
            lemma_loners(half_edges@, half_edges@.len() as int);
        }
        if !boundary_closes_check(&half_edges) {
            return None;
        }
        let ghost p0 = points@;
        let r = Mesh::with_boundary_and_verts(points, half_edges, faces);
        proof {
            if manifold(fl, np) {
                lemma_manifold_builds_wf(p0, fl, r);
            }
        }
        Some(r)
    }
}

} // verus!
