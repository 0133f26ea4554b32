//! Rotating an edge between two faces.
use vstd::prelude::*;

use crate::mesh::{with_next, with_origin, with_prev, HalfEdge, Mesh};
use crate::orbit::{
    is_cycle, is_edge, lemma_cycle_is_orbit, lemma_links, lemma_orbit_is_cycle, links_ok,
    next_iter, orbit, orbit_len,
};

verus! {

/// The half edges after [`Mesh::flip_edge`] on `e`.
#[verifier::opaque]
pub open spec fn flip_edges(es: Seq<HalfEdge>, e: int) -> Seq<HalfEdge> {
    let t = es[e].twin->0 as int;
    let n = es[e].next as int;
    let p = es[e].prev as int;
    let tn = es[t].next as int;
    let tp = es[t].prev as int;
    let tp_origin = es[tp].origin;
    let p_origin = es[p].origin;
    let s1 = es.update(e, with_origin(with_prev(with_next(es[e], p as u32), tn as u32), tp_origin));
    let s2 = s1.update(t, with_origin(with_prev(with_next(s1[t], tp as u32), n as u32), p_origin));
    let s3 = s2.update(n, with_prev(with_next(s2[n], t as u32), tp as u32));
    let s4 = s3.update(tn, with_prev(with_next(s3[tn], e as u32), p as u32));
    let s5 = s4.update(p, with_prev(with_next(s4[p], tn as u32), e as u32));
    s5.update(tp, with_prev(with_next(s5[tp], n as u32), t as u32))
}

/// The face table after [`Mesh::flip_edge`] on `e`.
pub open spec fn flip_faces(es: Seq<HalfEdge>, faces: Seq<u32>, e: int) -> Seq<u32> {
    let t = es[e].twin->0 as int;
    faces.update(es[e].face->0 as int, es[e].next).update(es[t].face->0 as int, es[t].next)
}

/// What [`Mesh::flip_edge`] needs to run: `e` and its twin bound faces, and
/// every half edge it touches exists.
pub open spec fn can_flip(es: Seq<HalfEdge>, n_faces: nat, e: int) -> bool {
    &&& 0 <= e < es.len()
    &&& es[e].face is Some
    &&& es[e].face->0 < n_faces
    &&& es[e].twin is Some
    &&& es[e].twin->0 < es.len()
    &&& es[e].next < es.len()
    &&& es[e].prev < es.len()
    &&& es[es[e].twin->0 as int].face is Some
    &&& es[es[e].twin->0 as int].face->0 < n_faces
    &&& es[es[e].twin->0 as int].next < es.len()
    &&& es[es[e].twin->0 as int].prev < es.len()
}

/// The six half edges of two triangles sharing an edge: `e`, its next and
/// prev, its twin, and the twin's next and prev, all different.
pub open spec fn flip_distinct(es: Seq<HalfEdge>, e: int) -> bool {
    let t = es[e].twin->0 as int;
    let n = es[e].next as int;
    let p = es[e].prev as int;
    let tn = es[t].next as int;
    let tp = es[t].prev as int;
    &&& 0 <= e < es.len()
    &&& es[e].twin is Some
    &&& 0 <= t < es.len()
    &&& n < es.len() && p < es.len() && tn < es.len() && tp < es.len()
    &&& seq![e, n, p, t, tn, tp].no_duplicates()
}

/// Field by field, what [`flip_edges`] changes.
pub proof fn lemma_flip_fields(es: Seq<HalfEdge>, e: int)
    requires
        flip_distinct(es, e),
    ensures
        ({
            let es2 = flip_edges(es, e);
            let t = es[e].twin->0 as int;
            let n = es[e].next as int;
            let p = es[e].prev as int;
            let tn = es[t].next as int;
            let tp = es[t].prev as int;
            &&& es2.len() == es.len()
            &&& forall|x: int|
                0 <= x < es.len() ==> {
                    &&& (#[trigger] es2[x]).twin == es[x].twin
                    &&& es2[x].face == es[x].face
                    &&& es2[x].origin == if x == e {
                        es[tp].origin
                    } else if x == t {
                        es[p].origin
                    } else {
                        es[x].origin
                    }
                    &&& es2[x].next == if x == e {
                        p as u32
                    } else if x == t {
                        tp as u32
                    } else if x == n {
                        t as u32
                    } else if x == tn {
                        e as u32
                    } else if x == p {
                        tn as u32
                    } else if x == tp {
                        n as u32
                    } else {
                        es[x].next
                    }
                    &&& es2[x].prev == if x == e {
                        tn as u32
                    } else if x == t {
                        n as u32
                    } else if x == n {
                        tp as u32
                    } else if x == tn {
                        p as u32
                    } else if x == p {
                        e as u32
                    } else if x == tp {
                        t as u32
                    } else {
                        es[x].prev
                    }
                }
        }),
{
    reveal(flip_edges);
    let t = es[e].twin->0 as int;
    let n = es[e].next as int;
    let p = es[e].prev as int;
    let tn = es[t].next as int;
    let tp = es[t].prev as int;
    let six = seq![e, n, p, t, tn, tp];
    assert(six[0] != six[1] && six[0] != six[2] && six[0] != six[3] && six[0] != six[4] && six[0] != six[5]);
    assert(six[1] != six[2] && six[1] != six[3] && six[1] != six[4] && six[1] != six[5]);
    assert(six[2] != six[3] && six[2] != six[4] && six[2] != six[5]);
    assert(six[3] != six[4] && six[3] != six[5] && six[4] != six[5]);
}

proof fn lemma_flip_indices<P>(m: Mesh<P>, m2: Mesh<P>, e: int)
    requires
        m.indices_valid(),
        flip_distinct(m.half_edges@, e),
        can_flip(m.half_edges@, m.faces@.len(), e),
        m2.half_edges@ == flip_edges(m.half_edges@, e),
        m2.faces@ == flip_faces(m.half_edges@, m.faces@, e),
        m2.verts@ == m.verts@,
    ensures
        m2.indices_valid(),
{
    let es = m.half_edges@;
    let es2 = m2.half_edges@;
    let nf = m.faces@.len();
    let t = es[e].twin->0 as int;
    let p = es[e].prev as int;
    let tp = es[t].prev as int;
    lemma_flip_fields(es, e);
    assert(crate::mesh::edge_in_range(es[e], es.len(), nf, m.verts@.len()));
    assert(crate::mesh::edge_in_range(es[t], es.len(), nf, m.verts@.len()));
    assert forall|x: int| 0 <= x < es2.len() implies crate::mesh::edge_in_range(
        #[trigger] es2[x],
        es2.len(),
        m2.faces@.len(),
        m2.verts@.len(),
    ) by {
        assert(crate::mesh::edge_in_range(es[x], es.len(), nf, m.verts@.len()));
        assert(crate::mesh::edge_in_range(es[tp], es.len(), nf, m.verts@.len()));
        assert(crate::mesh::edge_in_range(es[p], es.len(), nf, m.verts@.len()));
    }
    assert forall|g: int| 0 <= g < m2.faces@.len() implies #[trigger] m2.faces@[g] < es2.len() by {
        assert(m.faces@[g] < es.len());
    }
}

/// Flipping the shared edge of two triangles keeps the half edges connected
/// and leaves two triangles: `e` now closes the triangle of its old prev and
/// the twin's old next, the twin that of the twin's old prev and `e`'s old
/// next. Every other face cycle stays as it was.
pub proof fn lemma_flip_edge<P>(m: Mesh<P>, m2: Mesh<P>, e: int)
    requires
        m.wf(),
        0 <= e < m.half_edges@.len(),
        ({
            let es = m.half_edges@;
            let t = es[e].twin->0 as int;
            &&& orbit_len(es, e) == 3
            &&& orbit_len(es, t) == 3
            &&& es[e].face != es[t].face
            &&& es[e].face is Some
            &&& es[t].face is Some
        }),
        m2.half_edges@ == flip_edges(m.half_edges@, e),
        m2.faces@ == flip_faces(m.half_edges@, m.faces@, e),
        m2.verts@ == m.verts@,
    ensures
        m2.connected(),
        ({
            let es = m.half_edges@;
            let es2 = m2.half_edges@;
            let t = es[e].twin->0 as int;
            let n = es[e].next;
            let p = es[e].prev;
            let tn = es[t].next;
            let tp = es[t].prev;
            &&& orbit(es2, e) == seq![e as u32, p, tn]
            &&& orbit(es2, t) == seq![t as u32, tp, n]
            &&& orbit_len(es2, m2.faces@[es[e].face->0 as int] as int) == 3
            &&& orbit_len(es2, m2.faces@[es[t].face->0 as int] as int) == 3
            &&& forall|x: int|
                0 <= x < es.len() && es[x].face != es[e].face && es[x].face != es[t].face
                    ==> #[trigger] orbit(es2, x) == orbit(es, x)
        }),
{
    let es = m.half_edges@;
    let es2 = m2.half_edges@;
    let nf = m.faces@.len();
    let t = es[e].twin->0 as int;
    reveal(Mesh::twins_ok);
    assert(is_edge(es, e));
    assert(crate::mesh::edge_in_range(es[e], es.len(), nf, m.verts@.len()));
    let n = es[e].next as int;
    let p = es[e].prev as int;
    let tn = es[t].next as int;
    let tp = es[t].prev as int;
    lemma_orbit_is_cycle(es, e);
    lemma_orbit_is_cycle(es, t);
    crate::tri::lemma_orbit_label(m, e);
    crate::tri::lemma_orbit_label(m, t);
    let se = orbit(es, e);
    let st = orbit(es, t);
    assert(se[1] == n) by {
        assert(next_iter(es, e, 1) == es[next_iter(es, e, 0)].next as int);
    }
    assert(st[1] == tn) by {
        assert(next_iter(es, t, 1) == es[next_iter(es, t, 0)].next as int);
    }
    assert(se[2] == p && st[2] == tp);
    assert(es[n].face == es[e].face && es[p].face == es[e].face);
    assert(es[tn].face == es[t].face && es[tp].face == es[t].face);
    assert(seq![e, n, p, t, tn, tp].no_duplicates());
    assert(flip_distinct(es, e));
    lemma_flip_fields(es, e);
    lemma_links(es, e);
    lemma_links(es, t);
    lemma_links(es, n);
    lemma_links(es, p);
    lemma_links(es, tn);
    lemma_links(es, tp);
    // next of the triangles' members
    assert(es[n].next == p && es[p].next == e && es[tn].next == tp && es[tp].next == t);
    assert(crate::mesh::edge_in_range(es[t], es.len(), nf, m.verts@.len()));
    lemma_flip_indices(m, m2, e);
    assert(links_ok(es2)) by {
        reveal(links_ok);
        assert forall|x: int| #[trigger] is_edge(es2, x) implies {
            &&& es2[x].next < es2.len()
            &&& es2[x].prev < es2.len()
            &&& es2[es2[x].next as int].prev == x
            &&& es2[es2[x].prev as int].next == x
        } by {
            lemma_links(es, x);
        }
    }
    assert(m2.twins_ok()) by {
        assert(is_edge(es, t) && is_edge(es, n) && is_edge(es, p) && is_edge(es, tn) && is_edge(es, tp));
        assert forall|x: int| #[trigger] is_edge(es2, x) implies {
            &&& es2[x].twin is Some
            &&& es2[x].twin->0 != x
            &&& es2[es2[x].twin->0 as int].twin == Some(x as u32)
            &&& es2[es2[x].twin->0 as int].origin == es2[es2[x].next as int].origin
        } by {
            assert(is_edge(es, x));
            lemma_links(es, x);
            assert(crate::mesh::edge_in_range(es[x], es.len(), nf, m.verts@.len()));
        }
    }
    // the two new triangles
    let c1 = seq![e as u32, p as u32, tn as u32];
    let c2 = seq![t as u32, tp as u32, n as u32];
    assert(is_cycle(es2, c1)) by {
        assert(c1.no_duplicates());
    }
    assert(is_cycle(es2, c2)) by {
        assert(c2.no_duplicates());
    }
    lemma_cycle_is_orbit(es2, c1);
    lemma_cycle_is_orbit(es2, c2);
    crate::orbit::lemma_cycle_orbit(es2, c2, 2);
    crate::orbit::lemma_cycle_orbit(es2, c1, 2);
    assert(crate::mesh::edge_in_range(es[t], es.len(), nf, m.verts@.len()));
    assert(m2.faces@[es[t].face->0 as int] == tn);
    assert(m2.faces@[es[e].face->0 as int] == n);
    assert forall|x: int|
        0 <= x < es.len() && es[x].face != es[e].face && es[x].face != es[t].face implies #[trigger] orbit(
        es2,
        x,
    ) == orbit(es, x) by {
        lemma_orbit_is_cycle(es, x);
        crate::tri::lemma_orbit_label(m, x);
        let o = orbit(es, x);
        assert forall|i: int| 0 <= i < o.len() - 1 implies es2[#[trigger] o[i] as int].next == o[i + 1] by {
            assert(es[o[i] as int].face == es[x].face);
        }
        assert(es[o.last() as int].face == es[x].face);
        assert(is_cycle(es2, o));
        lemma_cycle_is_orbit(es2, o);
    }
}

impl<P> Mesh<P> {
    /// Rotates an edge and its twin inside the quadrilateral made of their
    /// two faces; the face labels of the half edges stay as they were.
    pub fn flip_edge(&mut self, edge_id: u32)
        requires
            can_flip(old(self).half_edges@, old(self).faces@.len(), edge_id as int),
        ensures
            final(self).half_edges@ == flip_edges(old(self).half_edges@, edge_id as int),
            final(self).faces@ == flip_faces(
                old(self).half_edges@,
                old(self).faces@,
                edge_id as int,
            ),
            final(self).verts@ == old(self).verts@,
    {
        let face_id = self.half_edges[edge_id as usize].face.unwrap();

        let mut trav = self.get_traverser(edge_id);
        let mut twin_trav = trav.clone();
        let twin_id = twin_trav.twin().get_id();
        let twin_face_id = self.half_edges[twin_id as usize].face.unwrap();

        let twin_next_id = twin_trav.clone().next().get_id();
        let twin_prev_id = twin_trav.prev().get_id();
        let twin_prev_origin = twin_trav.get_edge().origin;

        let next_id = trav.clone().next().get_id();
        let prev_id = trav.prev().get_id();
        let prev_origin = trav.get_edge().origin;

        // the flipped edges must not be the faces' reference edges
        self.faces.set(face_id as usize, next_id);
        self.faces.set(twin_face_id as usize, twin_next_id);

        let mut edge = self.half_edges[edge_id as usize];
        edge.next = prev_id;
        edge.prev = twin_next_id;
        edge.origin = twin_prev_origin;
        self.half_edges.set(edge_id as usize, edge);

        let mut twin = self.half_edges[twin_id as usize];
        twin.next = twin_prev_id;
        twin.prev = next_id;
        twin.origin = prev_origin;
        self.half_edges.set(twin_id as usize, twin);

        let mut next = self.half_edges[next_id as usize];
        next.next = twin_id;
        next.prev = twin_prev_id;
        self.half_edges.set(next_id as usize, next);

        let mut twin_next = self.half_edges[twin_next_id as usize];
        twin_next.next = edge_id;
        twin_next.prev = prev_id;
        self.half_edges.set(twin_next_id as usize, twin_next);

        let mut prev = self.half_edges[prev_id as usize];
        prev.next = twin_next_id;
        prev.prev = edge_id;
        self.half_edges.set(prev_id as usize, prev);

        let mut twin_prev = self.half_edges[twin_prev_id as usize];
        twin_prev.next = next_id;
        twin_prev.prev = twin_id;
        self.half_edges.set(twin_prev_id as usize, twin_prev);
        proof {
            reveal(flip_edges);
        }
    }
}

} // verus!
