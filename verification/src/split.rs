//! Splitting an edge at a new vertex.
use vstd::prelude::*;

use crate::mesh::{with_next, HalfEdge, Mesh, Midpoint, Vertex};
use crate::orbit::{
    is_edge,
    is_cycle, lemma_cycle_is_orbit, lemma_orbit_is_cycle, orbit, orbit_len,
};

verus! {

/// The half edges after [`Mesh::split_edge`] on `e` with `n_verts`
/// vertices before the split.
pub open spec fn split_edges(es: Seq<HalfEdge>, e: int, n_verts: nat) -> Seq<HalfEdge> {
    let t = es[e].twin->0 as int;
    let ne = es.len() as u32;
    let nt = (es.len() + 1) as u32;
    let v = n_verts as u32;
    let s1 = es.push(
        HalfEdge { origin: v, twin: Some(t as u32), face: es[e].face, next: es[e].next, prev: e as u32 },
    ).push(HalfEdge { origin: v, twin: Some(e as u32), face: es[t].face, next: es[t].next, prev: t as u32 });
    let s2 = s1.update(e, with_next(s1[e], ne));
    s2.update(t, with_next(s2[t], nt))
}

/// What [`Mesh::split_edge`] needs to run: `e` and its twin exist and the
/// new ids fit in `u32`.
pub open spec fn can_split(es: Seq<HalfEdge>, n_verts: nat, e: int) -> bool {
    &&& 0 <= e < es.len()
    &&& es[e].twin is Some
    &&& es[e].twin->0 < es.len()
    &&& es.len() + 2 <= u32::MAX
    &&& n_verts <= u32::MAX
}

/// The cycle through `x` after its next pointer is rerouted through the new
/// half edge `extra`, which continues to `x`'s old next.
proof fn lemma_insert_after(es: Seq<HalfEdge>, es2: Seq<HalfEdge>, x: int, extra: int)
    requires
        crate::orbit::links_ok(es),
        0 <= x < es.len(),
        es.len() <= extra < es2.len(),
        extra <= u32::MAX,
        es2[x].next == extra,
        es2[extra].next == es[x].next,
        forall|y: int|
            0 <= y < es.len() && y != x && orbit(es, x).contains(y as u32) ==> #[trigger] es2[y].next
                == es[y].next,
    ensures
        orbit(es2, x) == seq![x as u32, extra as u32] + orbit(es, x).subrange(
            1,
            orbit_len(es, x) as int,
        ),
{
    lemma_orbit_is_cycle(es, x);
    let s = orbit(es, x);
    let k = s.len() as int;
    let c = seq![x as u32, extra as u32] + s.subrange(1, k);
    assert(s[0] == x);
    assert forall|i: int| 0 <= i < c.len() implies #[trigger] c[i] < es2.len() by {
        if i >= 2 {
            assert(c[i] == s[i - 1]);
        }
    }
    assert forall|i: int, j: int| 0 <= i < c.len() && 0 <= j < c.len() && i != j implies c[i] != c[j] by {
        if i >= 2 && j >= 2 {
            assert(c[i] == s[i - 1] && c[j] == s[j - 1]);
        } else if i >= 2 {
            assert(c[i] == s[i - 1]);
            assert(s[i - 1] < es.len());
        } else if j >= 2 {
            assert(c[j] == s[j - 1]);
            assert(s[j - 1] < es.len());
        }
    }
    if k == 1 {
        assert(es[x].next == s[0]);
    } else {
        assert(es[x].next == s[1]);
    }
    assert forall|i: int| 0 <= i < c.len() - 1 implies es2[#[trigger] c[i] as int].next == c[i + 1] by {
        if i >= 2 {
            assert(c[i] == s[i - 1]);
            assert(s.contains(s[i - 1]));
            assert(es[s[i - 1] as int].next == s[i]);
        }
    }
    if k > 1 {
        assert(c.last() == s[k - 1]);
        assert(s.contains(s[k - 1]));
    }
    assert(is_cycle(es2, c));
    lemma_cycle_is_orbit(es2, c);
}

/// Splitting an edge between two different faces adds one side to each:
/// the new half edge follows `e` around its face and the new twin follows
/// the twin around the other.
pub proof fn lemma_split_edge<P>(m: Mesh<P>, m2: Mesh<P>, e: int)
    requires
        m.wf(),
        can_split(m.half_edges@, m.verts@.len(), e),
        m.half_edges@[e].face != m.half_edges@[m.half_edges@[e].twin->0 as int].face,
        m2.half_edges@ == split_edges(m.half_edges@, e, m.verts@.len()),
    ensures
        ({
            let es = m.half_edges@;
            let t = es[e].twin->0 as int;
            let es2 = m2.half_edges@;
            &&& orbit(es2, e) == seq![e as u32, es.len() as u32] + orbit(es, e).subrange(
                1,
                orbit_len(es, e) as int,
            )
            &&& orbit(es2, t) == seq![t as u32, (es.len() + 1) as u32] + orbit(es, t).subrange(
                1,
                orbit_len(es, t) as int,
            )
            &&& orbit_len(es2, e) == orbit_len(es, e) + 1
            &&& orbit_len(es2, t) == orbit_len(es, t) + 1
        }),
{
    let es = m.half_edges@;
    let es2 = m2.half_edges@;
    let t = es[e].twin->0 as int;
    crate::tri::lemma_orbit_label(m, e);
    crate::tri::lemma_orbit_label(m, t);
    lemma_orbit_is_cycle(es, e);
    lemma_orbit_is_cycle(es, t);
    assert forall|y: int|
        0 <= y < es.len() && y != e && orbit(es, e).contains(y as u32) implies #[trigger] es2[y].next
            == es[y].next by {
        let i = choose|i: int| 0 <= i < orbit(es, e).len() && orbit(es, e)[i] == y as u32;
        assert(es[orbit(es, e)[i] as int].face == es[e].face);
    }
    lemma_insert_after(es, es2, e, es.len() as int);
    assert forall|y: int|
        0 <= y < es.len() && y != t && orbit(es, t).contains(y as u32) implies #[trigger] es2[y].next
            == es[y].next by {
        let i = choose|i: int| 0 <= i < orbit(es, t).len() && orbit(es, t)[i] == y as u32;
        assert(es[orbit(es, t)[i] as int].face == es[t].face);
    }
    lemma_insert_after(es, es2, t, es.len() + 1 as int);
    assert(orbit(es2, e).len() == orbit_len(es2, e));
    assert(orbit(es2, t).len() == orbit_len(es2, t));
}

/// Splitting an edge keeps the face labels consistent: if labels are
/// constant along `next` and the face table points at half edges of the
/// right faces before, they are after too. In particular each new half edge
/// carries the label of the half edge it is inserted after.
pub proof fn lemma_split_face_labels<P>(m: Mesh<P>, m2: Mesh<P>, e: int)
    requires
        m.indices_valid(),
        m.faces_ok(),
        can_split(m.half_edges@, m.verts@.len(), e),
        m2.half_edges@ == split_edges(m.half_edges@, e, m.verts@.len()),
        m2.faces@ == m.faces@,
    ensures
        m2.faces_ok(),
        m2.half_edges@[m.half_edges@.len() as int].face == m.half_edges@[e].face,
        m2.half_edges@[m.half_edges@.len() + 1int].face == m.half_edges@[m.half_edges@[e].twin->0 as int].face,
{
    let es = m.half_edges@;
    let es2 = m2.half_edges@;
    let n = es.len() as int;
    let t = es[e].twin->0 as int;
    reveal(Mesh::faces_ok);
    assert(crate::mesh::edge_in_range(es[e], es.len(), m.faces@.len(), m.verts@.len()));
    assert(crate::mesh::edge_in_range(es[t], es.len(), m.faces@.len(), m.verts@.len()));
    assert(is_edge(es, e));
    assert(is_edge(es, t));
    assert forall|x: int| #[trigger] is_edge(es2, x) implies es2[es2[x].next as int].face
        == es2[x].face by {
        if x < n {
            assert(crate::mesh::edge_in_range(es[x], es.len(), m.faces@.len(), m.verts@.len()));
            assert(is_edge(es, x));
        }
    }
    assert forall|f: int| 0 <= f < m2.faces@.len() implies es2[#[trigger] m2.faces@[f] as int].face
        == Some(f as u32) by {
        assert(m.faces@[f] < es.len());
    }
}

impl<P> Mesh<P> {
    /// Adds a vertex at `coord` in the middle of `edge_id`: `edge_id` and its
    /// twin each get a new half edge after them that leaves from the new
    /// vertex.
    pub fn split_edge(&mut self, edge_id: u32, coord: P)
        requires
            can_split(old(self).half_edges@, old(self).verts@.len(), edge_id as int),
        ensures
            final(self).half_edges@ == split_edges(
                old(self).half_edges@,
                edge_id as int,
                old(self).verts@.len(),
            ),
            final(self).faces@ == old(self).faces@,
            final(self).verts@ == old(self).verts@.push(
                Vertex { coord, half_edge: old(self).half_edges@.len() as u32 },
            ),
            final(self).half_edges@[old(self).half_edges@.len() as int].face == old(
                self,
            ).half_edges@[edge_id as int].face,
            old(self).indices_valid() && old(self).faces_ok() ==> final(self).faces_ok(),
    {
        let travler = self.get_traverser(edge_id);
        let mut twin_travler = travler.clone();
        let twin_id = twin_travler.twin().get_id();

        let new_edge_id = self.half_edges.len() as u32;
        let new_twin_id = new_edge_id + 1;
        let new_point_id = self.verts.len() as u32;

        let edge = self.half_edges[edge_id as usize];
        let twin = self.half_edges[twin_id as usize];

        let new_point = Vertex { coord, half_edge: new_edge_id };
        self.verts.push(new_point);

        let new_edge = HalfEdge::new(new_point_id, Some(twin_id), edge.face, edge.next, edge_id);
        let new_twin = HalfEdge::new(new_point_id, Some(edge_id), twin.face, twin.next, twin_id);
        self.half_edges.push(new_edge);
        self.half_edges.push(new_twin);

        let mut e = self.half_edges[edge_id as usize];
        e.next = new_edge_id;
        self.half_edges.set(edge_id as usize, e);
        let mut t = self.half_edges[twin_id as usize];
        t.next = new_twin_id;
        self.half_edges.set(twin_id as usize, t);
        proof {
            if old(self).indices_valid() && old(self).faces_ok() {
                lemma_split_face_labels(*old(self), *self, edge_id as int);
            }
        }
    }

    /// Splits `edge_id` at the midpoint of its two end vertices: the new
    /// vertex's position is what [`Midpoint::midpoint`] gives for the
    /// positions of the edge's origin and of the origin of the half edge
    /// after it.
    pub fn divide_edge(&mut self, edge_id: u32) where P: Midpoint
        requires
            can_split(old(self).half_edges@, old(self).verts@.len(), edge_id as int),
            old(self).half_edges@[edge_id as int].origin < old(self).verts@.len(),
            old(self).half_edges@[edge_id as int].next < old(self).half_edges@.len(),
            old(self).half_edges@[old(self).half_edges@[edge_id as int].next as int].origin < old(
                self,
            ).verts@.len(),
        ensures
            final(self).half_edges@ == split_edges(
                old(self).half_edges@,
                edge_id as int,
                old(self).verts@.len(),
            ),
            final(self).faces@ == old(self).faces@,
            final(self).verts@.len() == old(self).verts@.len() + 1,
            final(self).verts@.drop_last() == old(self).verts@,
            final(self).verts@.last().half_edge == old(self).half_edges@.len(),
            final(self).half_edges@[old(self).half_edges@.len() as int].face == old(
                self,
            ).half_edges@[edge_id as int].face,
            old(self).indices_valid() && old(self).faces_ok() ==> final(self).faces_ok(),
            call_ensures(
                P::midpoint,
                (
                    &old(self).verts@[old(self).half_edges@[edge_id as int].origin as int].coord,
                    &old(self).verts@[old(self).half_edges@[old(
                        self,
                    ).half_edges@[edge_id as int].next as int].origin as int].coord,
                ),
                final(self).verts@.last().coord,
            ),
    {
        let mut travler = self.get_traverser(edge_id);
        let id1 = travler.get_edge().origin;
        travler.next();
        let id2 = travler.get_edge().origin;
        let mid = self.verts[id1 as usize].coord.midpoint(&self.verts[id2 as usize].coord);
        self.split_edge(edge_id, mid);
        proof {
            assert(self.verts@.drop_last() =~= old(self).verts@);
        }
    }
}

} // verus!
