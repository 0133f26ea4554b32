//! Testing at run time whether a mesh is well formed.
use vstd::prelude::*;

use crate::mesh::{edge_in_range, HalfEdge, Mesh};
use crate::orbit::{
    is_edge, lemma_return_bound, lemma_walk_in_range, links_ok, next_iter, nexts_in_range, orbit_len,
    returns_at, walk_closes,
};

verus! {

/// Whether every index stored in `h` is below the given sizes.
fn edge_fits(h: &HalfEdge, n_edges: usize, n_faces: usize, n_verts: usize) -> (r: bool)
    ensures
        r == edge_in_range(*h, n_edges as nat, n_faces as nat, n_verts as nat),
{
    let twin_ok = match h.twin {
        Some(t) => (t as usize) < n_edges,
        None => true,
    };
    let face_ok = match h.face {
        Some(f) => (f as usize) < n_faces,
        None => true,
    };
    (h.origin as usize) < n_verts && (h.next as usize) < n_edges && (h.prev as usize) < n_edges
        && twin_ok && face_ok
}

impl<P> Mesh<P> {
    fn indices_check(&self) -> (r: bool)
        ensures
            r == self.indices_valid(),
    {
        let ne = self.half_edges.len();
        let nf = self.faces.len();
        let nv = self.verts.len();
        for e in 0..ne
            invariant
                ne == self.half_edges@.len(),
                nf == self.faces@.len(),
                nv == self.verts@.len(),
                forall|a: int|
                    0 <= a < e ==> edge_in_range(#[trigger] self.half_edges@[a], ne as nat, nf as nat, nv as nat),
        {
            if !edge_fits(&self.half_edges[e], ne, nf, nv) {
                return false;
            }
        }
        for f in 0..nf
            invariant
                ne == self.half_edges@.len(),
                nf == self.faces@.len(),
                forall|a: int| 0 <= a < f ==> #[trigger] self.faces@[a] < ne,
        {
            if self.faces[f] as usize >= ne {
                return false;
            }
        }
        true
    }

    fn links_check(&self) -> (r: bool)
        requires
            self.indices_valid(),
        ensures
            r == links_ok(self.half_edges@),
    {
        let ghost es = self.half_edges@;
        let ne = self.half_edges.len();
        for e in 0..ne
            invariant
                ne == es.len(),
                es == self.half_edges@,
                self.indices_valid(),
                forall|a: int|
                    #![trigger es[a]]
                    0 <= a < e ==> {
                        &&& es[es[a].next as int].prev == a
                        &&& es[es[a].prev as int].next == a
                    },
        {
            let h = self.half_edges[e];
            if self.half_edges[h.next as usize].prev as usize != e
                || self.half_edges[h.prev as usize].next as usize != e {
                proof {
                    reveal(links_ok);
                    assert(is_edge(es, e as int));
                }
                return false;
            }
            proof {
                assert(is_edge(es, e as int));
            }
        }
        proof {
            reveal(links_ok);
            assert forall|a: int| #[trigger] is_edge(es, a) implies {
                &&& es[a].next < es.len()
                &&& es[a].prev < es.len()
                &&& es[es[a].next as int].prev == a
                &&& es[es[a].prev as int].next == a
            } by {
                assert(edge_in_range(es[a], es.len(), self.faces@.len(), self.verts@.len()));
            }
        }
        true
    }

    fn twins_check(&self) -> (r: bool)
        requires
            self.indices_valid(),
        ensures
            r == self.twins_ok(),
    {
        let ghost es = self.half_edges@;
        let ne = self.half_edges.len();
        for e in 0..ne
            invariant
                ne == es.len(),
                es == self.half_edges@,
                self.indices_valid(),
                forall|a: int|
                    #![trigger es[a]]
                    0 <= a < e ==> {
                        &&& es[a].twin is Some
                        &&& es[a].twin->0 != a
                        &&& es[es[a].twin->0 as int].twin == Some(a as u32)
                        &&& es[es[a].twin->0 as int].origin == es[es[a].next as int].origin
                    },
        {
            let h = self.half_edges[e];
            let ok = match h.twin {
                Some(t) => {
                    let th = self.half_edges[t as usize];
                    t as usize != e && th.twin == Some(e as u32) && th.origin
                        == self.half_edges[h.next as usize].origin
                },
                None => false,
            };
            proof {
                assert(edge_in_range(es[e as int], es.len(), self.faces@.len(), self.verts@.len()));
                assert(is_edge(es, e as int));
            }
            if !ok {
                proof {
                    reveal(Mesh::twins_ok);
                }
                return false;
            }
        }
        proof {
            reveal(Mesh::twins_ok);
        }
        true
    }

    fn faces_check(&self) -> (r: bool)
        requires
            self.indices_valid(),
        ensures
            r == self.faces_ok(),
    {
        let ghost es = self.half_edges@;
        let ne = self.half_edges.len();
        let nf = self.faces.len();
        for e in 0..ne
            invariant
                ne == es.len(),
                nf == self.faces@.len(),
                es == self.half_edges@,
                self.indices_valid(),
                forall|a: int| 0 <= a < e ==> es[es[a].next as int].face == #[trigger] es[a].face,
        {
            let h = self.half_edges[e];
            proof {
                assert(edge_in_range(es[e as int], es.len(), self.faces@.len(), self.verts@.len()));
                assert(is_edge(es, e as int));
            }
            if self.half_edges[h.next as usize].face != h.face {
                proof {
                    reveal(Mesh::faces_ok);
                }
                return false;
            }
        }
        for f in 0..nf
            invariant
                ne == es.len(),
                nf == self.faces@.len(),
                es == self.half_edges@,
                self.indices_valid(),
                forall|a: int| 0 <= a < ne ==> es[es[a].next as int].face == #[trigger] es[a].face,
                forall|g: int|
                    0 <= g < f ==> es[#[trigger] self.faces@[g] as int].face == Some(g as u32),
        {
            if self.half_edges[self.faces[f] as usize].face != Some(f as u32) {
                proof {
                    reveal(Mesh::faces_ok);
                }
                return false;
            }
        }
        proof {
            reveal(Mesh::faces_ok);
        }
        true
    }

    fn verts_check(&self) -> (r: bool)
        requires
            self.indices_valid(),
        ensures
            r == self.verts_ok(),
    {
        let ghost es = self.half_edges@;
        let ne = self.half_edges.len();
        for e in 0..ne
            invariant
                ne == es.len(),
                es == self.half_edges@,
                self.indices_valid(),
                forall|a: int|
                    #![trigger es[a]]
                    0 <= a < e ==> {
                        let v = es[a].origin as int;
                        &&& self.verts@[v].half_edge < es.len()
                        &&& es[self.verts@[v].half_edge as int].origin == es[a].origin
                    },
        {
            let h = self.half_edges[e];
            proof {
                assert(edge_in_range(es[e as int], es.len(), self.faces@.len(), self.verts@.len()));
                assert(is_edge(es, e as int));
            }
            let v = self.verts[h.origin as usize].half_edge;
            if v as usize >= ne || self.half_edges[v as usize].origin != h.origin {
                proof {
                    reveal(Mesh::verts_ok);
                }
                return false;
            }
        }
        proof {
            reveal(Mesh::verts_ok);
        }
        true
    }

    /// Whether every stored index is in range and the walk along `next`
    /// from every face's stored half edge comes back to it: what reading
    /// the faces needs.
    pub fn has_closing_faces(&self) -> (r: bool)
        ensures
            r == (self.indices_valid() && self.faces_close()),
    {
        if !self.indices_check() {
            return false;
        }
        let ghost es = self.half_edges@;
        let ne = self.half_edges.len();
        let nf = self.faces.len();
        proof {
            assert forall|e: int| 0 <= e < es.len() implies #[trigger] es[e].next < es.len() by {
                assert(edge_in_range(es[e], es.len(), self.faces@.len(), self.verts@.len()));
            }
        }
        for f in 0..nf
            invariant
                ne == es.len(),
                nf == self.faces@.len(),
                es == self.half_edges@,
                self.indices_valid(),
                nexts_in_range(es),
                forall|g: int| 0 <= g < f ==> walk_closes(es, #[trigger] self.faces@[g] as int),
        {
            let r = self.faces[f];
            let mut cur = self.half_edges[r as usize].next;
            let mut steps: usize = 1;
            proof {
                assert(next_iter(es, r as int, 1) == es[next_iter(es, r as int, 0)].next as int);
            }
            while cur != r && steps < ne
                invariant
                    ne == es.len(),
                    es == self.half_edges@,
                    nexts_in_range(es),
                    0 <= r < ne,
                    1 <= steps <= ne,
                    cur as int == next_iter(es, r as int, steps as nat),
                    forall|j: nat| 0 < j < steps ==> #[trigger] next_iter(es, r as int, j) != r,
                decreases ne - steps,
            {
                proof {
                    lemma_walk_in_range(es, r as int, steps as nat);
                }
                cur = self.half_edges[cur as usize].next;
                steps = steps + 1;
            }
            if cur != r {
                proof {
                    if walk_closes(es, r as int) {
                        let k = orbit_len(es, r as int);
                        lemma_return_bound(es, r as int, k);
                        if k < steps {
                            assert(next_iter(es, r as int, k) != r);
                        }
                    }
                }
                return false;
            }
            proof {
                assert(returns_at(es, r as int, steps as nat));
                lemma_return_bound(es, r as int, steps as nat);
            }
        }
        true
    }

    /// Whether the mesh is well formed: every stored index in range, `next`
    /// and `prev` inverse, twins paired and running the other way, face
    /// labels constant along `next` and matching the face table, and every
    /// used vertex pointing at a half edge that leaves it.
    pub fn is_well_formed(&self) -> (r: bool)
        ensures
            r == self.wf(),
    {
        if !self.indices_check() {
            return false;
        }
        self.links_check() && self.twins_check() && self.faces_check() && self.verts_check()
    }
}

} // verus!
