//! Cutting triangles off faces.
use vstd::prelude::*;

use crate::mesh::{with_face, with_next, with_prev, HalfEdge, Mesh};
use crate::orbit::{
    walk_closes, lemma_walk_in_range, nexts_in_range,
    is_cycle, is_edge, lemma_cycle_is_orbit, lemma_links, lemma_orbit_is_cycle, links_ok,
    next_iter, orbit, orbit_len,
};

verus! {

/// The half edges after [`Mesh::orphan_edge`] cuts the corner `prev(e)`,
/// `e` off its face, with `n_faces` faces before the cut.
#[verifier::opaque]
pub open spec fn orphan_edges(es: Seq<HalfEdge>, e: int, n_faces: nat) -> Seq<HalfEdge> {
    let h = es[e];
    let p = h.prev as int;
    let nx = h.next as int;
    let pp = es[p].prev as int;
    let ne = es.len() as u32;
    let nt = (es.len() + 1) as u32;
    let nf = n_faces as u32;
    let s1 = es.push(
        HalfEdge { origin: es[nx].origin, twin: Some(nt), face: Some(nf), next: p as u32, prev: e as u32 },
    ).push(HalfEdge { origin: es[p].origin, twin: Some(ne), face: h.face, next: nx as u32, prev: pp as u32 });
    let s2 = s1.update(e, with_next(with_face(s1[e], Some(nf)), ne));
    let s3 = s2.update(p, with_prev(with_face(s2[p], Some(nf)), ne));
    let s4 = s3.update(nx, with_prev(s3[nx], nt));
    s4.update(pp, with_next(s4[pp], nt))
}

/// The face table after [`Mesh::orphan_edge`] on `e`.
pub open spec fn orphan_faces(es: Seq<HalfEdge>, faces: Seq<u32>, e: int) -> Seq<u32> {
    faces.update(es[e].face->0 as int, es[e].next).push(e as u32)
}

/// What [`Mesh::orphan_edge`] needs to run: the half edges it touches and
/// the face of `e` exist, and the new ids fit in `u32`.
pub open spec fn can_orphan(es: Seq<HalfEdge>, n_faces: nat, e: int) -> bool {
    &&& 0 <= e < es.len()
    &&& es[e].prev < es.len()
    &&& es[e].next < es.len()
    &&& es[es[e].prev as int].prev < es.len()
    &&& es[e].face is Some
    &&& es[e].face->0 < n_faces
    &&& es.len() + 2 <= u32::MAX
    &&& n_faces < u32::MAX
}

/// How many half edges [`Mesh::concave_triangulate_face`] cuts off a face
/// with `k` sides.
pub open spec fn tail_len(k: nat) -> nat {
    if k >= 3 {
        (k - 3) as nat
    } else if k == 2 {
        1
    } else {
        0
    }
}

/// The half edges that [`Mesh::concave_triangulate_face`] cuts off, in
/// order: from the third after `r` up to the one before `r`.
pub open spec fn face_tail(es: Seq<HalfEdge>, r: int) -> Seq<u32> {
    Seq::new(tail_len(orbit_len(es, r)), |i: int| next_iter(es, r, (i + 3) as nat) as u32)
}

/// Half edges and faces after cutting off each of `ts` in turn.
pub open spec fn orphan_all(es: Seq<HalfEdge>, faces: Seq<u32>, ts: Seq<u32>) -> (Seq<HalfEdge>, Seq<u32>)
    decreases ts.len(),
{
    if ts.len() == 0 {
        (es, faces)
    } else {
        let before = orphan_all(es, faces, ts.drop_last());
        (
            orphan_edges(before.0, ts.last() as int, before.1.len()),
            orphan_faces(before.0, before.1, ts.last() as int),
        )
    }
}

/// Half edges and faces after [`Mesh::concave_triangulate_face`] on `face`.
pub open spec fn triangulate_face(es: Seq<HalfEdge>, faces: Seq<u32>, face: int) -> (Seq<HalfEdge>, Seq<u32>) {
    orphan_all(es, faces, face_tail(es, faces[face] as int))
}

/// The cycle that [`Mesh::concave_triangulate_face`] still has to cut
/// after `j` cuts: the remaining targets, then `r`, the half edge after it,
/// and the half edge closing the last cut.
pub open spec fn remaining_cycle(ts: Seq<u32>, j: int, r: u32, s1: u32, last: u32) -> Seq<u32> {
    ts.subrange(j, ts.len() as int) + seq![r, s1, last]
}

/// The half edge closing the cycle after `j` cuts of a mesh that had `n`
/// half edges: the face's third half edge before any cut, then the twin
/// added by each cut.
pub open spec fn closing_edge(s2: u32, n: int, j: int) -> u32 {
    if j == 0 {
        s2
    } else {
        (n + 2 * (j - 1) + 1) as u32
    }
}

/// The loop invariant of [`Mesh::concave_triangulate_face`] after `j` cuts
/// of face `f`, starting from half edges `es0`, faces `f0`, with targets `ts`
/// and the face's cycle `s` before the first cut.
pub open spec fn cut_invariant<P>(
    m: Mesh<P>,
    es0: Seq<HalfEdge>,
    f0: Seq<u32>,
    ts: Seq<u32>,
    f: int,
    s: Seq<u32>,
    j: int,
) -> bool {
    let r = f0[f];
    let n0 = es0.len() as int;
    let nf0 = f0.len() as int;
    let tl = ts.len() as int;
    let rest = remaining_cycle(ts, j, r, s[1], closing_edge(s[2], n0, j));
    &&& m.wf()
    &&& m.half_edges@.len() == n0 + 2 * j
    &&& m.faces@.len() == nf0 + j
    &&& orbit(m.half_edges@, rest[0] as int) == rest
    &&& m.faces@[f] == rest[if j == 0 { tl } else { 0 }]
    &&& forall|g: int|
        0 <= g < nf0 && g != f ==> #[trigger] m.faces@[g] == f0[g] && orbit(
            m.half_edges@,
            f0[g] as int,
        ) == orbit(es0, f0[g] as int)
    &&& forall|g: int|
        nf0 <= g < nf0 + j ==> orbit_len(m.half_edges@, #[trigger] m.faces@[g] as int) == 3
}

/// What the cuts of one face need besides [`cut_invariant`].
pub open spec fn cut_setting(
    es0: Seq<HalfEdge>,
    f0: Seq<u32>,
    ts: Seq<u32>,
    f: int,
    s: Seq<u32>,
) -> bool {
    &&& 0 <= f < f0.len()
    &&& s == orbit(es0, f0[f] as int)
    &&& orbit_len(es0, f0[f] as int) >= 3
    &&& ts.len() == tail_len(orbit_len(es0, f0[f] as int))
    &&& forall|i: int| 0 <= i < ts.len() ==> #[trigger] ts[i] < es0.len()
    &&& es0.len() + 2 * orbit_len(es0, f0[f] as int) <= u32::MAX
    &&& f0.len() + orbit_len(es0, f0[f] as int) < u32::MAX
}

/// Before each cut of [`Mesh::concave_triangulate_face`], the cut can be made.
proof fn lemma_triangulate_can<P>(
    mj: Mesh<P>,
    es0: Seq<HalfEdge>,
    f0: Seq<u32>,
    ts: Seq<u32>,
    f: int,
    s: Seq<u32>,
    j: int,
)
    requires
        cut_setting(es0, f0, ts, f, s),
        0 <= j < ts.len(),
        cut_invariant(mj, es0, f0, ts, f, s, j),
    ensures
        can_orphan(mj.half_edges@, mj.faces@.len(), ts[j] as int),
        mj.half_edges@[ts[j] as int].face == Some(f as u32),
        orbit_len(mj.half_edges@, ts[j] as int) >= 3,
{
    let r = f0[f];
    let n0 = es0.len() as int;
    let tl = ts.len() as int;
    let es = mj.half_edges@;
    let e = ts[j] as int;
    let rest = remaining_cycle(ts, j, r, s[1], closing_edge(s[2], n0, j));
    assert(rest[0] == e);
    lemma_orbit_is_cycle(es, e);
    lemma_orbit_label(mj, e);
    mj.lemma_face_label(f);
    let at = if j == 0 { tl } else { 0 };
    assert(es[rest[at] as int].face == es[e].face);
    lemma_links(es, e);
    lemma_links(es, es[e].prev as int);
    assert(crate::mesh::edge_in_range(es[e], es.len(), mj.faces@.len(), mj.verts@.len()));
}

/// One cut of [`Mesh::concave_triangulate_face`] keeps its loop invariant.
#[verifier::rlimit(100)]
#[verifier::spinoff_prover]
proof fn lemma_triangulate_step<P>(
    mj: Mesh<P>,
    m2: Mesh<P>,
    es0: Seq<HalfEdge>,
    f0: Seq<u32>,
    ts: Seq<u32>,
    f: int,
    s: Seq<u32>,
    j: int,
)
    requires
        cut_setting(es0, f0, ts, f, s),
        0 <= j < ts.len(),
        cut_invariant(mj, es0, f0, ts, f, s, j),
        m2.half_edges@ == orphan_edges(mj.half_edges@, ts[j] as int, mj.faces@.len()),
        m2.faces@ == orphan_faces(mj.half_edges@, mj.faces@, ts[j] as int),
        m2.verts@ == mj.verts@,
    ensures
        cut_invariant(m2, es0, f0, ts, f, s, j + 1),
{
    let r = f0[f];
    let n0 = es0.len() as int;
    let nf0 = f0.len() as int;
    let tl = ts.len() as int;
    let es = mj.half_edges@;
    let e = ts[j] as int;
    let rest = remaining_cycle(ts, j, r, s[1], closing_edge(s[2], n0, j));
    let rest2 = remaining_cycle(ts, j + 1, r, s[1], closing_edge(s[2], n0, j + 1));
    lemma_triangulate_can(mj, es0, f0, ts, f, s, j);
    lemma_orbit_is_cycle(es, e);
    lemma_orphan_edge(mj, m2, e);
    let kk = orbit_len(es, e);
    assert(es[e].next == rest[1]);
    assert(rest.subrange(1, kk - 1).push((n0 + 2 * j + 1) as u32) =~= rest2);
    assert(m2.wf());
    assert(m2.half_edges@.len() == n0 + 2 * (j + 1));
    assert(m2.faces@.len() == nf0 + j + 1);
    assert(rest2[0] == es[e].next);
    assert(orbit(m2.half_edges@, rest2[0] as int) == rest2);
    assert(m2.faces@[f] == rest2[0]);
    assert forall|g: int|
        0 <= g < nf0 && g != f implies #[trigger] m2.faces@[g] == f0[g] && orbit(
            m2.half_edges@,
            f0[g] as int,
        ) == orbit(es0, f0[g] as int) by {
        mj.lemma_face_label(g);
    }
    assert forall|g: int|
        nf0 <= g < nf0 + j + 1 implies orbit_len(m2.half_edges@, #[trigger] m2.faces@[g] as int)
            == 3 by {
        if g < nf0 + j {
            mj.lemma_face_label(g);
            let x = mj.faces@[g] as int;
            assert(x < es.len());
            assert(es[x].face != es[e].face);
            assert(m2.faces@[g] == x);
            assert(orbit(m2.half_edges@, x) == orbit(es, x));
            assert(orbit_len(es, x) == 3);
            assert(orbit(es, x).len() == orbit_len(es, x));
        } else {
            assert(m2.faces@[g] == e);
            assert(orbit(m2.half_edges@, e).len() == 3);
        }
    }
}

/// Before the first cut of [`Mesh::concave_triangulate_face`].
proof fn lemma_triangulate_start<P>(m0: Mesh<P>, f: int, ts: Seq<u32>)
    requires
        m0.wf(),
        0 <= f < m0.faces@.len(),
        ts == face_tail(m0.half_edges@, m0.faces@[f] as int),
        m0.half_edges@.len() + 2 * orbit_len(m0.half_edges@, m0.faces@[f] as int) <= u32::MAX,
        m0.faces@.len() + orbit_len(m0.half_edges@, m0.faces@[f] as int) < u32::MAX,
    ensures
        ({
            let es0 = m0.half_edges@;
            let f0 = m0.faces@;
            let r = f0[f] as int;
            let k = orbit_len(es0, r);
            let s = orbit(es0, r);
            &&& forall|i: int| 0 <= i < ts.len() ==> #[trigger] ts[i] < es0.len()
            &&& k < 3 && ts.len() > 0 ==> ts[0] == s[1] && es0[s[1] as int].face == Some(f as u32)
            &&& k >= 3 ==> cut_setting(es0, f0, ts, f, s) && cut_invariant(m0, es0, f0, ts, f, s, 0)
        }),
{
    let es0 = m0.half_edges@;
    let f0 = m0.faces@;
    let r = f0[f];
    let k = orbit_len(es0, r as int);
    let tl = tail_len(k);
    let s = orbit(es0, r as int);
    assert(r < es0.len());
    crate::orbit::lemma_orbit_exists(es0, r as int);
    assert forall|i: int| 0 <= i < ts.len() implies #[trigger] ts[i] < es0.len() by {
        crate::orbit::lemma_next_iter_range(es0, r as int, (i + 3) as nat);
    }
    lemma_orbit_is_cycle(es0, r as int);
    m0.lemma_face_label(f);
    lemma_orbit_label(m0, r as int);
    if k >= 3 {
        assert(ts =~= s.subrange(3, k as int));
        let rest0 = remaining_cycle(ts, 0, r, s[1], s[2]);
        if tl == 0 {
            assert(rest0 =~= s);
            assert(orbit(es0, rest0[0] as int) == rest0);
        } else {
            crate::orbit::lemma_rotate_cycle(es0, s, 3);
            assert(rest0 =~= s.subrange(3, k as int) + s.subrange(0, 3));
            lemma_cycle_is_orbit(es0, rest0);
        }
        assert(rest0[tl as int] == r);
        assert(cut_invariant(m0, es0, f0, ts, f, s, 0));
    } else if k == 2 {
        assert(ts[0] == s[1]) by {
            crate::orbit::lemma_next_iter_add(es0, r as int, 2, 1);
        }
    }
}

/// After the last cut of [`Mesh::concave_triangulate_face`].
proof fn lemma_triangulate_end<P>(
    m: Mesh<P>,
    es0: Seq<HalfEdge>,
    f0: Seq<u32>,
    ts: Seq<u32>,
    f: int,
    s: Seq<u32>,
)
    requires
        cut_setting(es0, f0, ts, f, s),
        cut_invariant(m, es0, f0, ts, f, s, ts.len() as int),
    ensures
        ({
            let nf = f0.len();
            let k = orbit_len(es0, f0[f] as int);
            &&& m.wf()
            &&& m.faces@.len() == nf + k - 3
            &&& m.half_edges@.len() == es0.len() + 2 * (k - 3)
            &&& forall|g: int|
                0 <= g < m.faces@.len() && (g == f || g >= nf) ==> orbit_len(
                    m.half_edges@,
                    #[trigger] m.faces@[g] as int,
                ) == 3
            &&& forall|g: int|
                0 <= g < nf && g != f ==> #[trigger] m.faces@[g] == f0[g] && orbit(
                    m.half_edges@,
                    f0[g] as int,
                ) == orbit(es0, f0[g] as int)
        }),
{
    let n = ts.len() as int;
    let r = f0[f];
    let rest = remaining_cycle(ts, n, r, s[1], closing_edge(s[2], es0.len() as int, n));
    assert(m.faces@[f] == rest[0]);
    assert(orbit(m.half_edges@, rest[0] as int).len() == 3);
}

/// Half edges and faces after [`Mesh::concave_triangulate_face`] on faces
/// `0..i` in turn.
pub open spec fn triangulate_upto(es: Seq<HalfEdge>, faces: Seq<u32>, i: nat) -> (Seq<HalfEdge>, Seq<u32>)
    decreases i,
{
    if i == 0 {
        (es, faces)
    } else {
        let before = triangulate_upto(es, faces, (i - 1) as nat);
        triangulate_face(before.0, before.1, i - 1)
    }
}

/// The number of sides of faces `lo..hi`, added up.
pub open spec fn sides_from(es: Seq<HalfEdge>, faces: Seq<u32>, lo: int, hi: int) -> nat
    decreases hi - lo,
{
    if lo >= hi {
        0
    } else {
        orbit_len(es, faces[lo] as int) + sides_from(es, faces, lo + 1, hi)
    }
}

/// Every index stored in half edges `es` and face table `faces` is in range
/// for `n_verts` vertices: [`Mesh::indices_valid`] on plain sequences.
pub open spec fn indices_in_range(es: Seq<HalfEdge>, faces: Seq<u32>, n_verts: nat) -> bool {
    &&& forall|e: int|
        0 <= e < es.len() ==> crate::mesh::edge_in_range(
            #[trigger] es[e],
            es.len(),
            faces.len(),
            n_verts,
        )
    &&& forall|f: int| 0 <= f < faces.len() ==> #[trigger] faces[f] < es.len()
}

/// What [`Mesh::concave_triangulate_face`] needs to run on `face`: indices
/// in range, the walk from the face's half edge coming back to it, every
/// half edge it will cut off bounding a face, and room for the new ids.
pub open spec fn face_ready(es: Seq<HalfEdge>, faces: Seq<u32>, n_verts: nat, face: int) -> bool {
    let r = faces[face] as int;
    &&& indices_in_range(es, faces, n_verts)
    &&& 0 <= face < faces.len()
    &&& walk_closes(es, r)
    &&& forall|i: int|
        0 <= i < face_tail(es, r).len() ==> es[#[trigger] face_tail(es, r)[i] as int].face is Some
    &&& es.len() + 2 * orbit_len(es, r) <= u32::MAX
    &&& faces.len() + orbit_len(es, r) < u32::MAX
}

/// A cut keeps every stored index in range and every present face label.
proof fn lemma_orphan_range(es: Seq<HalfEdge>, faces: Seq<u32>, n_verts: nat, e: int)
    requires
        indices_in_range(es, faces, n_verts),
        can_orphan(es, faces.len(), e),
    ensures
        indices_in_range(orphan_edges(es, e, faces.len()), orphan_faces(es, faces, e), n_verts),
        orphan_edges(es, e, faces.len()).len() == es.len() + 2,
        orphan_faces(es, faces, e).len() == faces.len() + 1,
        forall|x: int|
            0 <= x < es.len() && (#[trigger] es[x]).face is Some ==> orphan_edges(
                es,
                e,
                faces.len(),
            )[x].face is Some,
{
    reveal(orphan_edges);
    let es2 = orphan_edges(es, e, faces.len());
    let f2 = orphan_faces(es, faces, e);
    let p = es[e].prev as int;
    let nx = es[e].next as int;
    assert(crate::mesh::edge_in_range(es[e], es.len(), faces.len(), n_verts));
    assert(crate::mesh::edge_in_range(es[p], es.len(), faces.len(), n_verts));
    assert(crate::mesh::edge_in_range(es[nx], es.len(), faces.len(), n_verts));
    assert forall|x: int| 0 <= x < es2.len() implies crate::mesh::edge_in_range(
        #[trigger] es2[x],
        es2.len(),
        f2.len(),
        n_verts,
    ) by {
        if x < es.len() {
            assert(crate::mesh::edge_in_range(es[x], es.len(), faces.len(), n_verts));
        }
    }
    assert forall|g: int| 0 <= g < f2.len() implies #[trigger] f2[g] < es2.len() by {
        if g < faces.len() {
            assert(faces[g] < es.len());
        }
    }
}

/// The cuts of one face, from the state after `j` of them, stay possible:
/// indices in range and the targets still to come bounding faces.
pub open spec fn cuts_possible(
    es: Seq<HalfEdge>,
    faces: Seq<u32>,
    n_verts: nat,
    ts: Seq<u32>,
    j: int,
) -> bool {
    &&& indices_in_range(es, faces, n_verts)
    &&& forall|i: int| j <= i < ts.len() ==> (#[trigger] es[ts[i] as int]).face is Some
    &&& forall|i: int| 0 <= i < ts.len() ==> #[trigger] ts[i] < es.len()
}

/// A well formed mesh whose faces all have at least three sides, with room
/// for the ids that triangulating it adds.
pub open spec fn triangulable<P>(m: Mesh<P>) -> bool {
    &&& m.wf()
    &&& forall|g: int|
        0 <= g < m.faces@.len() ==> orbit_len(m.half_edges@, #[trigger] m.faces@[g] as int) >= 3
    &&& m.half_edges@.len() + 2 * sides_from(m.half_edges@, m.faces@, 0, m.faces@.len() as int)
        <= u32::MAX
    &&& m.faces@.len() + sides_from(m.half_edges@, m.faces@, 0, m.faces@.len() as int) < u32::MAX
}

/// Triangulating faces `0, 1, ...` in turn can run: each face is ready when
/// its turn comes.
pub open spec fn all_faces_ready(es: Seq<HalfEdge>, faces: Seq<u32>, n_verts: nat) -> bool {
    forall|i: nat|
        i < faces.len() ==> #[trigger] face_ready(
            triangulate_upto(es, faces, i).0,
            triangulate_upto(es, faces, i).1,
            n_verts,
            i as int,
        )
}

/// Triangulating a mesh whose faces are all triangles changes nothing: so
/// triangulating twice is the same as once.
pub proof fn lemma_triangulate_triangles(es: Seq<HalfEdge>, faces: Seq<u32>, i: nat)
    requires
        i <= faces.len(),
        forall|g: int| 0 <= g < faces.len() ==> orbit_len(es, #[trigger] faces[g] as int) == 3,
    ensures
        triangulate_upto(es, faces, i) == (es, faces),
    decreases i,
{
    if i > 0 {
        lemma_triangulate_triangles(es, faces, (i - 1) as nat);
        let r = faces[i - 1] as int;
        assert(orbit_len(es, r) == 3);
        assert(face_tail(es, r) =~= Seq::<u32>::empty());
    }
}

/// On a well formed mesh a face can be triangulated when the new ids fit.
pub proof fn lemma_wf_face_ready<P>(m: Mesh<P>, face: int)
    requires
        m.wf(),
        0 <= face < m.faces@.len(),
        m.half_edges@.len() + 2 * orbit_len(m.half_edges@, m.faces@[face] as int) <= u32::MAX,
        m.faces@.len() + orbit_len(m.half_edges@, m.faces@[face] as int) < u32::MAX,
    ensures
        face_ready(m.half_edges@, m.faces@, m.verts@.len(), face),
{
    let es = m.half_edges@;
    let r = m.faces@[face] as int;
    assert(r < es.len());
    crate::orbit::lemma_orbit_exists(es, r);
    m.lemma_face_label(face);
    lemma_orbit_label(m, r);
    lemma_orbit_is_cycle(es, r);
    let k = orbit_len(es, r);
    assert forall|i: int| 0 <= i < face_tail(es, r).len() implies es[#[trigger] face_tail(
        es,
        r,
    )[i] as int].face is Some by {
        if k >= 3 {
            assert(face_tail(es, r)[i] == orbit(es, r)[i + 3]);
        } else {
            crate::orbit::lemma_next_iter_add(es, r, 2, 1);
            assert(face_tail(es, r)[i] == orbit(es, r)[1]);
        }
    }
}

/// Walking on from the third half edge after `r` reaches `r` again after
/// exactly `tail_len` steps.
proof fn lemma_face_tail(es: Seq<HalfEdge>, r: int)
    requires
        walk_closes(es, r),
    ensures
        next_iter(es, r, 3 + tail_len(orbit_len(es, r))) == r,
        forall|i: nat| i < tail_len(orbit_len(es, r)) ==> #[trigger] next_iter(es, r, 3 + i) != r,
{
    let k = orbit_len(es, r);
    if k == 2 {
        crate::orbit::lemma_next_iter_add(es, r, 2, 1);
        crate::orbit::lemma_next_iter_add(es, r, 2, 2);
        assert(next_iter(es, r, 1) != r);
    } else if k == 1 {
        crate::orbit::lemma_next_iter_add(es, r, 1, 1);
        crate::orbit::lemma_next_iter_add(es, r, 1, 2);
        crate::orbit::lemma_next_iter_add(es, r, 2, 1);
    }
}

impl<P> Mesh<P> {
    /// Cuts every face into triangles, one face after the other. It runs
    /// on any mesh where each face, when its turn comes, can be cut; a well
    /// formed mesh whose faces all have at least three sides is one, and
    /// then the result is a well formed mesh of triangles.
    pub fn concave_triangulate(&mut self)
        requires
            triangulable(*old(self)) || all_faces_ready(
                old(self).half_edges@,
                old(self).faces@,
                old(self).verts@.len(),
            ),
        ensures
            (final(self).half_edges@, final(self).faces@) == triangulate_upto(
                old(self).half_edges@,
                old(self).faces@,
                old(self).faces@.len(),
            ),
            final(self).verts@ == old(self).verts@,
            triangulable(*old(self)) ==> {
                &&& final(self).wf()
                &&& final(self).faces@.len() == sides_from(
                    old(self).half_edges@,
                    old(self).faces@,
                    0,
                    old(self).faces@.len() as int,
                ) - 2 * old(self).faces@.len()
                &&& forall|g: int|
                    0 <= g < final(self).faces@.len() ==> orbit_len(
                        final(self).half_edges@,
                        #[trigger] final(self).faces@[g] as int,
                    ) == 3
                &&& triangulate_upto(
                    final(self).half_edges@,
                    final(self).faces@,
                    final(self).faces@.len(),
                ) == (final(self).half_edges@, final(self).faces@)
            },
    {
        let ghost es0 = self.half_edges@;
        let ghost f0 = self.faces@;
        let ghost nv = self.verts@.len();
        let ghost nf0 = f0.len() as int;
        let ghost total = sides_from(es0, f0, 0, nf0);
        let ghost wfc = triangulable(*self);
        proof {
            if !wfc && nf0 > 0 {
                assert(face_ready(
                    triangulate_upto(es0, f0, 0).0,
                    triangulate_upto(es0, f0, 0).1,
                    nv,
                    0,
                ));
            }
        }
        let n_faces = self.faces.len() as u32;
        for i in 0..n_faces
            invariant
                nf0 == f0.len(),
                n_faces == nf0,
                es0 == old(self).half_edges@,
                f0 == old(self).faces@,
                nv == old(self).verts@.len(),
                wfc == triangulable(*old(self)),
                wfc || all_faces_ready(es0, f0, nv),
                total == sides_from(es0, f0, 0, nf0),
                self.verts@ == old(self).verts@,
                (self.half_edges@, self.faces@) == triangulate_upto(es0, f0, i as nat),
                wfc ==> self.wf(),
                wfc ==> self.faces@.len() >= nf0,
                wfc ==> self.half_edges@.len() + 2 * sides_from(es0, f0, i as int, nf0) <= es0.len() + 2 * total,
                wfc ==> self.faces@.len() + sides_from(es0, f0, i as int, nf0) <= nf0 + total,
                wfc ==> self.faces@.len() + 3 * i == nf0 + sides_from(es0, f0, 0, nf0) - sides_from(es0, f0, i as int, nf0),
                wfc ==> es0.len() + 2 * total <= u32::MAX,
                wfc ==> nf0 + total < u32::MAX,
                wfc ==> forall|g: int|
                    0 <= g < self.faces@.len() && (g < i || g >= nf0) ==> orbit_len(
                        self.half_edges@,
                        #[trigger] self.faces@[g] as int,
                    ) == 3,
                wfc ==> forall|g: int|
                    i <= g < nf0 ==> #[trigger] self.faces@[g] == f0[g] && orbit(
                        self.half_edges@,
                        f0[g] as int,
                    ) == orbit(es0, f0[g] as int),
                wfc ==> forall|g: int| 0 <= g < nf0 ==> orbit_len(es0, #[trigger] f0[g] as int) >= 3,
        {
            proof {
                if wfc {
                    assert(self.faces@[i as int] == f0[i as int]);
                    let k = orbit_len(es0, f0[i as int] as int);
                    assert(orbit_len(self.half_edges@, self.faces@[i as int] as int) == k) by {
                        assert(orbit(self.half_edges@, f0[i as int] as int).len() == orbit_len(self.half_edges@, f0[i as int] as int));
                        assert(orbit(es0, f0[i as int] as int).len() == k);
                    }
                    assert(sides_from(es0, f0, i as int, nf0) == k + sides_from(es0, f0, i + 1, nf0));
                    lemma_wf_face_ready(*self, i as int);
                } else {
                    assert(face_ready(
                        triangulate_upto(es0, f0, i as nat).0,
                        triangulate_upto(es0, f0, i as nat).1,
                        nv,
                        i as int,
                    ));
                }
            }
            let ghost before = *self;
            self.concave_triangulate_face(i);
            proof {
                if wfc {
                    let k = orbit_len(es0, f0[i as int] as int);
                    assert(sides_from(es0, f0, i as int, nf0) == k + sides_from(es0, f0, i + 1, nf0));
                    assert forall|g: int| i + 1 <= g < nf0 implies #[trigger] self.faces@[g] == f0[g]
                        && orbit(self.half_edges@, f0[g] as int) == orbit(es0, f0[g] as int) by {
                        assert(before.faces@[g] == f0[g]);
                        assert(orbit(before.half_edges@, f0[g] as int) == orbit(es0, f0[g] as int));
                        assert(self.faces@[g] == before.faces@[g]);
                    }
                    assert forall|g: int|
                        0 <= g < self.faces@.len() && (g < i + 1 || g >= nf0) implies orbit_len(
                            self.half_edges@,
                            #[trigger] self.faces@[g] as int,
                        ) == 3 by {
                        if g < before.faces@.len() && g != i {
                            let x = before.faces@[g] as int;
                            assert(self.faces@[g] == before.faces@[g]);
                            assert(orbit(self.half_edges@, x) == orbit(before.half_edges@, x));
                            assert(orbit(self.half_edges@, x).len() == orbit_len(self.half_edges@, x));
                            assert(orbit(before.half_edges@, x).len() == orbit_len(before.half_edges@, x));
                        }
                    }
                }
            }
        }
        proof {
            if wfc {
                lemma_triangulate_triangles(self.half_edges@, self.faces@, self.faces@.len());
            }
        }
    }

    /// Cuts a face into triangles by repeatedly cutting off the corner at
    /// its third half edge and onwards. On a well formed mesh with a face of
    /// at least three sides the result is well formed, the face and the new
    /// ones are triangles and the other faces keep their cycles.
    pub fn concave_triangulate_face(&mut self, face: u32)
        requires
            face_ready(old(self).half_edges@, old(self).faces@, old(self).verts@.len(), face as int),
        ensures
            (final(self).half_edges@, final(self).faces@) == triangulate_face(
                old(self).half_edges@,
                old(self).faces@,
                face as int,
            ),
            final(self).verts@ == old(self).verts@,
            final(self).indices_valid(),
            ({
                let es = old(self).half_edges@;
                let nf = old(self).faces@.len();
                let k = orbit_len(es, old(self).faces@[face as int] as int);
                old(self).wf() && k >= 3 ==> {
                    &&& final(self).wf()
                    &&& final(self).faces@.len() == nf + k - 3
                    &&& final(self).half_edges@.len() == es.len() + 2 * (k - 3)
                    &&& forall|g: int|
                        0 <= g < final(self).faces@.len() && (g == face || g >= nf) ==> orbit_len(
                            final(self).half_edges@,
                            #[trigger] final(self).faces@[g] as int,
                        ) == 3
                    &&& forall|g: int|
                        0 <= g < nf && g != face ==> #[trigger] final(self).faces@[g]
                            == old(self).faces@[g] && orbit(
                            final(self).half_edges@,
                            old(self).faces@[g] as int,
                        ) == orbit(es, old(self).faces@[g] as int)
                }
            }),
    {
        let ghost es0 = self.half_edges@;
        let ghost f0 = self.faces@;
        let ghost nv = self.verts@.len();
        let ghost wf0 = self.wf();
        let r = self.faces[face as usize];
        let ghost k = orbit_len(es0, r as int);
        let ghost tl = tail_len(k);
        proof {
            assert(r < es0.len());
            assert forall|e: int| 0 <= e < es0.len() implies #[trigger] es0[e].next < es0.len() by {
                assert(crate::mesh::edge_in_range(es0[e], es0.len(), f0.len(), nv));
            }
        }
        let targets = self.tail_edges(face);
        let ghost f = face as int;
        let ghost n0 = es0.len() as int;
        let ghost nf0 = f0.len() as int;
        let ghost s = orbit(es0, r as int);
        let ghost ts = targets@;
        proof {
            assert forall|i: int| 0 <= i < ts.len() implies #[trigger] ts[i] < es0.len() by {
                lemma_walk_in_range(es0, r as int, (i + 3) as nat);
            }
            if wf0 {
                lemma_triangulate_start(*old(self), f, ts);
            }
            assert(cuts_possible(es0, f0, nv, ts, 0));
        }
        let n = targets.len();
        for j in 0..n
            invariant
                n == targets@.len(),
                ts == targets@,
                targets@ == face_tail(es0, f0[face as int] as int),
                es0 == old(self).half_edges@,
                f0 == old(self).faces@,
                nv == old(self).verts@.len(),
                wf0 == old(self).wf(),
                f == face as int,
                r == f0[f],
                0 <= f < nf0,
                n0 == es0.len(),
                nf0 == f0.len(),
                k == orbit_len(es0, r as int),
                tl == tail_len(k),
                ts.len() == tl,
                s == orbit(es0, r as int),
                n0 + 2 * k <= u32::MAX,
                nf0 + k < u32::MAX,
                (self.half_edges@, self.faces@) == orphan_all(es0, f0, targets@.take(j as int)),
                self.verts@ == old(self).verts@,
                self.half_edges@.len() == n0 + 2 * j,
                self.faces@.len() == nf0 + j,
                cuts_possible(self.half_edges@, self.faces@, nv, ts, j as int),
                wf0 && k >= 3 ==> cut_setting(es0, f0, ts, f, s) && cut_invariant(*self, es0, f0, ts, f, s, j as int),
        {
            let e = targets[j];
            let ghost mj = *self;
            proof {
                let es = mj.half_edges@;
                assert(tl <= k);
                assert(crate::mesh::edge_in_range(es[e as int], es.len(), mj.faces@.len(), nv));
                assert(crate::mesh::edge_in_range(es[es[e as int].prev as int], es.len(), mj.faces@.len(), nv));
                assert(es[ts[j as int] as int].face is Some);
                if wf0 && k >= 3 {
                    lemma_triangulate_can(mj, es0, f0, ts, f, s, j as int);
                }
                lemma_orphan_range(es, mj.faces@, nv, e as int);
            }
            self.orphan_edge(e);
            proof {
                assert(targets@.take(j + 1).drop_last() =~= targets@.take(j as int));
                assert forall|i: int| j + 1 <= i < ts.len() implies (#[trigger] self.half_edges@[ts[i] as int]).face is Some by {
                    assert(mj.half_edges@[ts[i] as int].face is Some);
                }
                if wf0 && k >= 3 {
                    lemma_triangulate_step(mj, *self, es0, f0, ts, f, s, j as int);
                }
            }
        }
        proof {
            assert(targets@.take(n as int) =~= targets@);
            if wf0 && k >= 3 {
                lemma_triangulate_end(*self, es0, f0, ts, f, s);
            }
        }
    }

    /// The half edges that [`Mesh::concave_triangulate_face`] cuts off.
    fn tail_edges(&self, face: u32) -> (targets: Vec<u32>)
        requires
            face < self.faces@.len(),
            self.faces@[face as int] < self.half_edges@.len(),
            self.half_edges@.len() <= u32::MAX,
            nexts_in_range(self.half_edges@),
            walk_closes(self.half_edges@, self.faces@[face as int] as int),
        ensures
            targets@ == face_tail(self.half_edges@, self.faces@[face as int] as int),
    {
        let ghost es0 = self.half_edges@;
        let r = self.faces[face as usize];
        let ghost k = orbit_len(es0, r as int);
        let ghost tl = tail_len(k);
        proof {
            lemma_face_tail(es0, r as int);
            lemma_walk_in_range(es0, r as int, 1);
            lemma_walk_in_range(es0, r as int, 2);
        }
        let mut targets: Vec<u32> = Vec::new();
        let mut travler = self.get_traverser(r);
        let start_id = travler.get_id();
        travler.next().next().next();
        proof {
            assert(next_iter(es0, r as int, 1) == es0[next_iter(es0, r as int, 0)].next as int);
            assert(next_iter(es0, r as int, 2) == es0[next_iter(es0, r as int, 1)].next as int);
            assert(next_iter(es0, r as int, 3) == es0[next_iter(es0, r as int, 2)].next as int);
        }
        let ghost mut i: nat = 0;
        while travler.current_edge != start_id
            invariant
                nexts_in_range(es0),
                es0 == self.half_edges@,
                es0.len() <= u32::MAX,
                travler.mesh == self,
                start_id == r,
                0 <= r < es0.len(),
                i <= tl,
                tl == tail_len(orbit_len(es0, r as int)),
                next_iter(es0, r as int, 3 + tl) == r,
                forall|j: nat| j < tl ==> #[trigger] next_iter(es0, r as int, 3 + j) != r,
                travler.current_edge == next_iter(es0, r as int, 3 + i),
                targets@ == face_tail(es0, r as int).take(i as int),
            decreases tl - i,
        {
            proof {
                lemma_walk_in_range(es0, r as int, 3 + i);
                assert(i < tl);
                assert(face_tail(es0, r as int)[i as int] == travler.current_edge);
                assert(targets@.push(travler.current_edge) =~= face_tail(es0, r as int).take(
                    i + 1 as int,
                ));
            }
            targets.push(travler.get_id());
            travler.next();
            proof {
                i = i + 1;
            }
        }
        proof {
            if i < tl {
                assert(next_iter(es0, r as int, 3 + i) != r);
            }
            assert(targets@ =~= face_tail(es0, r as int));
        }
        targets
    }

    /// Moves `edge_id` and the half edge before it into a new triangle,
    /// closing both it and the rest of the old face with a new edge.
    pub fn orphan_edge(&mut self, edge_id: u32)
        requires
            can_orphan(old(self).half_edges@, old(self).faces@.len(), edge_id as int),
        ensures
            final(self).half_edges@ == orphan_edges(
                old(self).half_edges@,
                edge_id as int,
                old(self).faces@.len(),
            ),
            final(self).faces@ == orphan_faces(
                old(self).half_edges@,
                old(self).faces@,
                edge_id as int,
            ),
            final(self).verts@ == old(self).verts@,
    {
        let edge = self.half_edges[edge_id as usize];
        let prev_id = edge.prev;
        let next_id = edge.next;
        let pp_id = self.half_edges[prev_id as usize].prev;
        let nn_id = next_id;

        let new_edge_id = self.half_edges.len() as u32;
        let new_twin_id = new_edge_id + 1;
        let face = edge.face;
        let new_face_id = self.faces.len() as u32;
        let face_id = edge.face.unwrap() as usize;
        self.faces.set(face_id, next_id);
        self.faces.push(edge_id);

        let new_edge = HalfEdge {
            origin: self.half_edges[next_id as usize].origin,
            twin: Some(new_twin_id),
            face: Some(new_face_id),
            next: prev_id,
            prev: edge_id,
        };
        self.half_edges.push(new_edge);

        let new_twin = HalfEdge {
            origin: self.half_edges[prev_id as usize].origin,
            twin: Some(new_edge_id),
            face,
            next: nn_id,
            prev: pp_id,
        };
        self.half_edges.push(new_twin);

        let mut e = self.half_edges[edge_id as usize];
        e.face = Some(new_face_id);
        e.next = new_edge_id;
        self.half_edges.set(edge_id as usize, e);

        let mut p = self.half_edges[prev_id as usize];
        p.face = Some(new_face_id);
        p.prev = new_edge_id;
        self.half_edges.set(prev_id as usize, p);

        let mut n = self.half_edges[next_id as usize];
        n.prev = new_twin_id;
        self.half_edges.set(next_id as usize, n);

        let mut q = self.half_edges[pp_id as usize];
        q.next = new_twin_id;
        self.half_edges.set(pp_id as usize, q);
        proof {
            reveal(orphan_edges);
        }
    }
}


/// Every half edge on the face cycle of `x` carries the face label of `x`.
pub proof fn lemma_orbit_label<P>(m: Mesh<P>, x: int)
    requires
        m.wf(),
        0 <= x < m.half_edges@.len(),
    ensures
        forall|j: int|
            0 <= j < orbit(m.half_edges@, x).len() ==> m.half_edges@[#[trigger] orbit(
                m.half_edges@,
                x,
            )[j] as int].face == m.half_edges@[x].face,
{
    let es = m.half_edges@;
    lemma_orbit_is_cycle(es, x);
    let s = orbit(es, x);
    assert forall|j: int| 0 <= j < s.len() implies es[#[trigger] s[j] as int].face == es[x].face by {
        lemma_walk_label(m, x, j);
    }
}

proof fn lemma_walk_label<P>(m: Mesh<P>, x: int, j: int)
    requires
        m.wf(),
        0 <= x < m.half_edges@.len(),
        0 <= j < orbit(m.half_edges@, x).len(),
    ensures
        m.half_edges@[orbit(m.half_edges@, x)[j] as int].face == m.half_edges@[x].face,
    decreases j,
{
    let es = m.half_edges@;
    lemma_orbit_is_cycle(es, x);
    if j > 0 {
        lemma_walk_label(m, x, j - 1);
        let y = orbit(es, x)[j - 1] as int;
        reveal(Mesh::faces_ok);
        assert(crate::orbit::is_edge(es, y));
    }
}

/// Field by field, what [`orphan_edges`] changes.
pub proof fn lemma_orphan_fields(es: Seq<HalfEdge>, e: int, n_faces: nat)
    requires
        0 <= e < es.len(),
        es[e].prev < es.len(),
        es[e].next < es.len(),
        es[es[e].prev as int].prev < es.len(),
        ({
            let p = es[e].prev as int;
            let nx = es[e].next as int;
            let pp = es[p].prev as int;
            e != p && e != nx && p != nx && pp != e && pp != p
        }),
    ensures
        ({
            let es2 = orphan_edges(es, e, n_faces);
            let n = es.len() as int;
            let p = es[e].prev as int;
            let nx = es[e].next as int;
            let pp = es[p].prev as int;
            let nf = n_faces as u32;
            &&& es2.len() == n + 2
            &&& es2[n] == HalfEdge {
                origin: es[nx].origin,
                twin: Some((n + 1) as u32),
                face: Some(nf),
                next: p as u32,
                prev: e as u32,
            }
            &&& es2[n + 1] == HalfEdge {
                origin: es[p].origin,
                twin: Some(n as u32),
                face: es[e].face,
                next: nx as u32,
                prev: pp as u32,
            }
            &&& forall|x: int|
                0 <= x < n ==> {
                    &&& (#[trigger] es2[x]).origin == es[x].origin
                    &&& es2[x].twin == es[x].twin
                    &&& es2[x].next == if x == e {
                        n as u32
                    } else if x == pp {
                        (n + 1) as u32
                    } else {
                        es[x].next
                    }
                    &&& es2[x].prev == if x == p {
                        n as u32
                    } else if x == nx {
                        (n + 1) as u32
                    } else {
                        es[x].prev
                    }
                    &&& es2[x].face == if x == e || x == p {
                        Some(nf)
                    } else {
                        es[x].face
                    }
                }
        }),
{
    reveal(orphan_edges);
}

/// The corner facts that a face of at least three sides gives.
pub open spec fn corner_ok(es: Seq<HalfEdge>, e: int) -> bool {
    let p = es[e].prev as int;
    let nx = es[e].next as int;
    let pp = es[p].prev as int;
    &&& 0 <= e < es.len()
    &&& p < es.len()
    &&& nx < es.len()
    &&& pp < es.len()
    &&& e != p && e != nx && p != nx && pp != e && pp != p
    &&& es.len() + 2 <= u32::MAX
}

proof fn lemma_orphan_indices<P>(m: Mesh<P>, m2: Mesh<P>, e: int)
    requires
        m.indices_valid(),
        corner_ok(m.half_edges@, e),
        can_orphan(m.half_edges@, m.faces@.len(), e),
        m2.half_edges@ == orphan_edges(m.half_edges@, e, m.faces@.len()),
        m2.faces@ == orphan_faces(m.half_edges@, m.faces@, e),
        m2.verts@ == m.verts@,
    ensures
        m2.indices_valid(),
{
    let es = m.half_edges@;
    let es2 = m2.half_edges@;
    let n = es.len() as int;
    let nfaces = m.faces@.len();
    let p = es[e].prev as int;
    let nx = es[e].next as int;
    lemma_orphan_fields(es, e, nfaces);
    assert forall|x: int| 0 <= x < es2.len() implies crate::mesh::edge_in_range(
        #[trigger] es2[x],
        es2.len(),
        m2.faces@.len(),
        m2.verts@.len(),
    ) by {
        if x < n {
            assert(crate::mesh::edge_in_range(es[x], es.len(), nfaces, m.verts@.len()));
        } else {
            assert(crate::mesh::edge_in_range(es[nx], es.len(), nfaces, m.verts@.len()));
            assert(crate::mesh::edge_in_range(es[p], es.len(), nfaces, m.verts@.len()));
        }
    }
    assert forall|g: int| 0 <= g < m2.faces@.len() implies #[trigger] m2.faces@[g]
        < es2.len() by {
        if g < nfaces {
            assert(m.faces@[g] < es.len());
        }
    }
}

proof fn lemma_orphan_links(es: Seq<HalfEdge>, e: int, n_faces: nat)
    requires
        links_ok(es),
        corner_ok(es, e),
    ensures
        links_ok(orphan_edges(es, e, n_faces)),
{
    let es2 = orphan_edges(es, e, n_faces);
    let n = es.len() as int;
    lemma_orphan_fields(es, e, n_faces);
    lemma_links(es, e);
    lemma_links(es, es[e].prev as int);
    lemma_links(es, es[e].next as int);
    lemma_links(es, es[es[e].prev as int].prev as int);
    reveal(links_ok);
    assert forall|x: int| #[trigger] is_edge(es2, x) implies {
        &&& es2[x].next < es2.len()
        &&& es2[x].prev < es2.len()
        &&& es2[es2[x].next as int].prev == x
        &&& es2[es2[x].prev as int].next == x
    } by {
        if x < n {
            lemma_links(es, x);
        }
    }
}

proof fn lemma_orphan_twins<P>(m: Mesh<P>, m2: Mesh<P>, e: int)
    requires
        m.indices_valid(),
        m.twins_ok(),
        links_ok(m.half_edges@),
        corner_ok(m.half_edges@, e),
        m2.half_edges@ == orphan_edges(m.half_edges@, e, m.faces@.len()),
    ensures
        m2.twins_ok(),
{
    let es = m.half_edges@;
    let es2 = m2.half_edges@;
    let n = es.len() as int;
    let nfaces = m.faces@.len();
    lemma_orphan_fields(es, e, nfaces);
    let p = es[e].prev as int;
    let pp = es[p].prev as int;
    lemma_links(es, e);
    lemma_links(es, p);
    lemma_links(es, pp);
    reveal(Mesh::twins_ok);
    assert forall|x: int| #[trigger] is_edge(es2, x) implies {
        &&& es2[x].twin is Some
        &&& es2[x].twin->0 != x
        &&& es2[es2[x].twin->0 as int].twin == Some(x as u32)
        &&& es2[es2[x].twin->0 as int].origin == es2[es2[x].next as int].origin
    } by {
        if x < n {
            assert(is_edge(es, x));
            lemma_links(es, x);
            assert(crate::mesh::edge_in_range(es[x], es.len(), nfaces, m.verts@.len()));
            assert(es[es[x].next as int].origin == es[es[x].twin->0 as int].origin);
        }
    }
}

proof fn lemma_orphan_faces_ok<P>(m: Mesh<P>, m2: Mesh<P>, e: int)
    requires
        m.indices_valid(),
        m.faces_ok(),
        links_ok(m.half_edges@),
        corner_ok(m.half_edges@, e),
        can_orphan(m.half_edges@, m.faces@.len(), e),
        m2.half_edges@ == orphan_edges(m.half_edges@, e, m.faces@.len()),
        m2.faces@ == orphan_faces(m.half_edges@, m.faces@, e),
    ensures
        m2.faces_ok(),
{
    let es = m.half_edges@;
    let es2 = m2.half_edges@;
    let n = es.len() as int;
    let nfaces = m.faces@.len();
    lemma_orphan_fields(es, e, nfaces);
    let p = es[e].prev as int;
    let nx = es[e].next as int;
    let pp = es[p].prev as int;
    lemma_links(es, e);
    lemma_links(es, p);
    lemma_links(es, pp);
    reveal(Mesh::faces_ok);
    assert(is_edge(es, pp) && is_edge(es, p) && is_edge(es, e));
    assert(es[pp].face == es[e].face && es[p].face == es[e].face && es[nx].face == es[e].face);
    assert forall|x: int| #[trigger] is_edge(es2, x) implies es2[es2[x].next as int].face
        == es2[x].face by {
        if x < n {
            assert(is_edge(es, x));
            lemma_links(es, x);
        }
    }
    assert forall|g: int| 0 <= g < m2.faces@.len() implies es2[#[trigger] m2.faces@[g] as int].face
        == Some(g as u32) by {
        if g < nfaces {
            assert(es[m.faces@[g] as int].face == Some(g as u32));
            assert(m.faces@[g] < n);
        }
    }
}

proof fn lemma_orphan_verts_ok<P>(m: Mesh<P>, m2: Mesh<P>, e: int)
    requires
        m.indices_valid(),
        m.verts_ok(),
        corner_ok(m.half_edges@, e),
        m2.half_edges@ == orphan_edges(m.half_edges@, e, m.faces@.len()),
        m2.verts@ == m.verts@,
    ensures
        m2.verts_ok(),
{
    let es = m.half_edges@;
    let es2 = m2.half_edges@;
    let n = es.len() as int;
    lemma_orphan_fields(es, e, m.faces@.len());
    let p = es[e].prev as int;
    let nx = es[e].next as int;
    reveal(Mesh::verts_ok);
    assert forall|x: int| #[trigger] is_edge(es2, x) implies {
        let v = es2[x].origin as int;
        &&& m2.verts@[v].half_edge < es2.len()
        &&& es2[m2.verts@[v].half_edge as int].origin == es2[x].origin
    } by {
        let y = if x < n {
            x
        } else if x == n {
            nx
        } else {
            p
        };
        let v = es[y].origin as int;
        assert(is_edge(es, y));
        assert(es[m.verts@[v].half_edge as int].origin == es[y].origin);
    }
}

/// Cutting a corner off a face with at least three sides keeps the mesh
/// well formed: the corner becomes a triangle, the rest of the face loses
/// one side, and every other face keeps its cycle.
#[verifier::spinoff_prover]
pub proof fn lemma_orphan_edge<P>(m: Mesh<P>, m2: Mesh<P>, e: int)
    requires
        m.wf(),
        can_orphan(m.half_edges@, m.faces@.len(), e),
        orbit_len(m.half_edges@, e) >= 3,
        m2.half_edges@ == orphan_edges(m.half_edges@, e, m.faces@.len()),
        m2.faces@ == orphan_faces(m.half_edges@, m.faces@, e),
        m2.verts@ == m.verts@,
    ensures
        m2.wf(),
        m2.half_edges@.len() == m.half_edges@.len() + 2,
        ({
            let es = m.half_edges@;
            let es2 = m2.half_edges@;
            let k = orbit_len(es, e);
            &&& orbit(es2, e) == seq![e as u32, es.len() as u32, es[e].prev]
            &&& orbit(es2, es[e].next as int) == orbit(es, e).subrange(1, k - 1).push(
                (es.len() + 1) as u32,
            )
            &&& forall|x: int|
                0 <= x < es.len() && es[x].face != es[e].face ==> #[trigger] orbit(es2, x)
                    == orbit(es, x)
            &&& forall|x: int|
                0 <= x < es.len() && x != e && x != es[e].prev ==> #[trigger] es2[x].face
                    == es[x].face
            &&& forall|x: int|
                0 <= x < es.len() && x != e && x != es[es[e].prev as int].prev ==> #[trigger] es2[x].next
                    == es[x].next
        }),
{
    let es = m.half_edges@;
    let es2 = m2.half_edges@;
    let k = orbit_len(es, e);
    lemma_orbit_is_cycle(es, e);
    let s = orbit(es, e);
    let p = es[e].prev as int;
    let nx = es[e].next as int;
    let pp = es[p].prev as int;
    assert(s[1] == nx) by {
        assert(next_iter(es, e, 1) == es[next_iter(es, e, 0)].next as int);
    }
    assert(s[k - 1] == p);
    lemma_links(es, s[k - 2] as int);
    assert(s[k - 2] == pp);
    assert(corner_ok(es, e));
    lemma_orphan_indices(m, m2, e);
    lemma_orphan_links(es, e, m.faces@.len());
    lemma_orphan_twins(m, m2, e);
    lemma_orphan_faces_ok(m, m2, e);
    lemma_orphan_verts_ok(m, m2, e);
    lemma_orphan_fields(es, e, m.faces@.len());
    lemma_orphan_cycles(m, m2, e);
}

#[verifier::rlimit(40)]
proof fn lemma_orphan_cycles<P>(m: Mesh<P>, m2: Mesh<P>, e: int)
    requires
        m.wf(),
        can_orphan(m.half_edges@, m.faces@.len(), e),
        corner_ok(m.half_edges@, e),
        orbit_len(m.half_edges@, e) >= 3,
        m2.half_edges@ == orphan_edges(m.half_edges@, e, m.faces@.len()),
    ensures
        ({
            let es = m.half_edges@;
            let es2 = m2.half_edges@;
            let k = orbit_len(es, e);
            &&& orbit(es2, e) == seq![e as u32, es.len() as u32, es[e].prev]
            &&& orbit(es2, es[e].next as int) == orbit(es, e).subrange(1, k - 1).push(
                (es.len() + 1) as u32,
            )
            &&& forall|x: int|
                0 <= x < es.len() && es[x].face != es[e].face ==> #[trigger] orbit(es2, x)
                    == orbit(es, x)
        }),
{
    let es = m.half_edges@;
    let es2 = m2.half_edges@;
    let n = es.len() as int;
    let k = orbit_len(es, e);
    lemma_orbit_is_cycle(es, e);
    let s = orbit(es, e);
    let p = es[e].prev as int;
    let nx = es[e].next as int;
    let pp = es[p].prev as int;
    assert(s[1] == nx) by {
        assert(next_iter(es, e, 1) == es[next_iter(es, e, 0)].next as int);
    }
    lemma_links(es, s[k - 2] as int);
    lemma_links(es, p);
    assert(s[k - 2] == pp);
    lemma_orphan_fields(es, e, m.faces@.len());
    // the corner triangle
    let c = seq![e as u32, n as u32, p as u32];
    assert(is_cycle(es2, c)) by {
        assert(c.no_duplicates());
    }
    lemma_cycle_is_orbit(es2, c);
    // the rest of the face
    let c2 = s.subrange(1, k - 1).push((n + 1) as u32);
    assert(is_cycle(es2, c2)) by {
        assert forall|i: int, j: int| 0 <= i < c2.len() && 0 <= j < c2.len() && i != j implies c2[i]
            != c2[j] by {
            if i < k - 2 && j < k - 2 {
                assert(s[i + 1] != s[j + 1]);
            }
        }
        assert forall|i: int| 0 <= i < c2.len() - 1 implies es2[#[trigger] c2[i] as int].next == c2[i + 1] by {
            if i < k - 3 {
                assert(es[s[i + 1] as int].next == s[i + 2]);
                assert(s[i + 1] != s[0] && s[i + 1] != s[k - 2]);
            }
        }
    }
    lemma_cycle_is_orbit(es2, c2);
    assert forall|x: int| 0 <= x < n && es[x].face != es[e].face implies #[trigger] orbit(es2, x)
        == orbit(es, x) by {
        lemma_orphan_other(m, m2, e, x);
    }
}

proof fn lemma_orphan_other<P>(m: Mesh<P>, m2: Mesh<P>, e: int, x: int)
    requires
        m.wf(),
        corner_ok(m.half_edges@, e),
        m2.half_edges@ == orphan_edges(m.half_edges@, e, m.faces@.len()),
        0 <= x < m.half_edges@.len(),
        m.half_edges@[x].face != m.half_edges@[e].face,
    ensures
        orbit(m2.half_edges@, x) == orbit(m.half_edges@, x),
{
    let es = m.half_edges@;
    let es2 = m2.half_edges@;
    let p = es[e].prev as int;
    let pp = es[p].prev as int;
    lemma_orphan_fields(es, e, m.faces@.len());
    lemma_links(es, pp);
    lemma_links(es, p);
    lemma_links(es, e);
    assert(es[pp].face == es[e].face && es[p].face == es[e].face) by {
        reveal(Mesh::faces_ok);
        assert(is_edge(es, pp) && is_edge(es, p));
    }
    lemma_orbit_is_cycle(es, x);
    lemma_orbit_label(m, x);
    let o = orbit(es, x);
    assert forall|i: int| 0 <= i < o.len() - 1 implies es2[#[trigger] o[i] as int].next == o[i + 1] by {
        assert(es[o[i] as int].face == es[x].face);
    }
    assert(es[o.last() as int].face == es[x].face);
    assert(is_cycle(es2, o));
    lemma_cycle_is_orbit(es2, o);
}

} // verus!
