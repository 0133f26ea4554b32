//! Moving around the mesh: traversers and walks around faces and vertices.
use vstd::prelude::*;

use crate::mesh::{HalfEdge, Mesh};
use crate::orbit::{
    is_edge, lemma_links, lemma_orbit_exists, lemma_return_bound, lemma_walk_in_range, links_ok,
    next_iter, nexts_in_range, orbit_len, returns_at, walk_closes,
};

verus! {

/// A cursor on one half edge of a mesh.
pub struct MeshTraverser<'a, P> {
    pub mesh: &'a Mesh<P>,
    pub current_edge: u32,
}

impl<'a, P> Clone for MeshTraverser<'a, P> {
    fn clone(&self) -> (r: Self)
        ensures
            r == *self,
    {
        MeshTraverser { mesh: self.mesh, current_edge: self.current_edge }
    }
}

impl<'a, P> MeshTraverser<'a, P> {
    pub open spec fn edges(&self) -> Seq<HalfEdge> {
        self.mesh.half_edges@
    }

    pub fn get_id(&self) -> (r: u32)
        ensures
            r == self.current_edge,
    {
        self.current_edge
    }

    pub fn get_edge(&self) -> (r: &'a HalfEdge)
        requires
            self.current_edge < self.edges().len(),
        ensures
            *r == self.edges()[self.current_edge as int],
    {
        &self.mesh.half_edges[self.current_edge as usize]
    }

    /// Moves to the next half edge around the face.
    pub fn next(&mut self) -> (r: &mut Self)
        requires
            old(self).current_edge < old(self).edges().len(),
        ensures
            r.mesh == old(self).mesh,
            r.current_edge == old(self).edges()[old(self).current_edge as int].next,
            *final(self) == *final(r),
    {
        self.current_edge = self.get_edge().next;
        self
    }

    /// Moves to the previous half edge around the face.
    pub fn prev(&mut self) -> (r: &mut Self)
        requires
            old(self).current_edge < old(self).edges().len(),
        ensures
            r.mesh == old(self).mesh,
            r.current_edge == old(self).edges()[old(self).current_edge as int].prev,
            *final(self) == *final(r),
    {
        self.current_edge = self.get_edge().prev;
        self
    }

    /// Moves to the twin half edge.
    pub fn twin(&mut self) -> (r: &mut Self)
        requires
            old(self).current_edge < old(self).edges().len(),
            old(self).edges()[old(self).current_edge as int].twin is Some,
        ensures
            r.mesh == old(self).mesh,
            r.current_edge == old(self).edges()[old(self).current_edge as int].twin->0,
            *final(self) == *final(r),
    {
        self.current_edge = self.get_edge().twin.unwrap();
        self
    }
}


/// The half edges after `r` around its face, ending with `r` itself.
pub open spec fn face_walk(es: Seq<HalfEdge>, r: int) -> Seq<int> {
    Seq::new(orbit_len(es, r), |j: int| next_iter(es, r, (j + 1) as nat))
}

/// The origins of [`face_walk`].
pub open spec fn face_origins(es: Seq<HalfEdge>, r: int) -> Seq<u32> {
    face_walk(es, r).map_values(|e: int| es[e].origin)
}

/// Steps around a face, yielding the half edge after the start first and the
/// start edge last.
pub struct FaceEdgesIter<'a, P> {
    pub traverser: MeshTraverser<'a, P>,
    pub start_edge: u32,
    pub stop: bool,
}

impl<'a, P> FaceEdgesIter<'a, P> {
    /// The iterator has taken `i` steps round a face whose walk closes: it
    /// is on the half edge `i` steps after the start and has stopped just
    /// when it is back at the start.
    pub open spec fn walked(&self, i: nat) -> bool {
        let es = self.traverser.edges();
        let start = self.start_edge as int;
        &&& walk_closes(es, start)
        &&& i <= orbit_len(es, start)
        &&& self.traverser.current_edge == next_iter(es, start, i)
        &&& self.stop == (i == orbit_len(es, start))
    }

    /// Steps to the next half edge round the face and yields it; once back
    /// at the start it stops, and from then on yields nothing.
    pub fn next(&mut self) -> (r: Option<&'a HalfEdge>)
        requires
            !old(self).stop ==> old(self).traverser.current_edge < old(self).traverser.edges().len()
                && old(self).traverser.edges()[old(self).traverser.current_edge as int].next
                < old(self).traverser.edges().len(),
        ensures
            old(self).stop ==> r is None && *final(self) == *old(self),
            !old(self).stop ==> {
                let es = old(self).traverser.edges();
                let nxt = es[old(self).traverser.current_edge as int].next;
                &&& final(self).traverser.mesh == old(self).traverser.mesh
                &&& final(self).traverser.current_edge == nxt
                &&& final(self).start_edge == old(self).start_edge
                &&& final(self).stop == (nxt == old(self).start_edge)
                &&& r == Some(&es[nxt as int])
                &&& old(self).traverser.mesh.wf() ==> es[nxt as int].face
                    == es[old(self).traverser.current_edge as int].face
            },
            forall|i: nat|
                #[trigger] old(self).walked(i) ==> (if old(self).stop {
                    final(self).walked(i)
                } else {
                    final(self).walked(i + 1)
                }),
    {
        proof {
            let es = self.traverser.edges();
            let start = self.start_edge as int;
            assert forall|i: nat| #[trigger] self.walked(i) && !self.stop implies next_iter(
                es,
                start,
                i + 1,
            ) == start <==> i + 1 == orbit_len(es, start) by {
                assert(next_iter(es, start, i + 1) == es[next_iter(es, start, i)].next as int);
                if i + 1 < orbit_len(es, start) {
                    assert(next_iter(es, start, i + 1) != start);
                }
            }
        }
        proof {
            if !self.stop && self.traverser.mesh.wf() {
                reveal(Mesh::faces_ok);
                assert(is_edge(self.traverser.edges(), self.traverser.current_edge as int));
            }
        }
        if self.stop {
            return None;
        }
        self.traverser.next();
        if self.traverser.current_edge == self.start_edge {
            self.stop = true;
        }
        Some(self.traverser.get_edge())
    }
}

/// Steps around a vertex by `prev` then `twin`, ending with the start edge.
pub struct VertexEdgesIter<'a, P> {
    pub traverser: MeshTraverser<'a, P>,
    pub start_edge: u32,
    pub stop: bool,
}

impl<'a, P> VertexEdgesIter<'a, P> {
    pub fn next(&mut self) -> (r: Option<&'a HalfEdge>)
        requires
            !old(self).stop ==> {
                let es = old(self).traverser.edges();
                let c = old(self).traverser.current_edge as int;
                &&& c < es.len()
                &&& es[c].prev < es.len()
                &&& es[es[c].prev as int].twin is Some
                &&& es[es[c].prev as int].twin->0 < es.len()
            },
        ensures
            old(self).stop ==> r is None && *final(self) == *old(self),
            !old(self).stop ==> {
                let es = old(self).traverser.edges();
                let c = old(self).traverser.current_edge as int;
                let t = es[es[c].prev as int].twin->0;
                &&& final(self).traverser.mesh == old(self).traverser.mesh
                &&& final(self).traverser.current_edge == t
                &&& final(self).start_edge == old(self).start_edge
                &&& final(self).stop == (t == old(self).start_edge)
                &&& r == Some(&es[t as int])
                &&& old(self).traverser.mesh.wf() ==> es[t as int].origin == es[c].origin
            },
    {
        proof {
            let es = self.traverser.edges();
            let c = self.traverser.current_edge as int;
            if !self.stop && self.traverser.mesh.wf() {
                reveal(Mesh::twins_ok);
                lemma_links(es, c);
                assert(is_edge(es, es[c].prev as int));
            }
        }
        if self.stop {
            return None;
        }
        self.traverser.prev();
        self.traverser.twin();
        if self.traverser.current_edge == self.start_edge {
            self.stop = true;
        }
        Some(self.traverser.get_edge())
    }
}

impl<P> Mesh<P> {
    pub fn get_traverser(&self, edge_id: u32) -> (r: MeshTraverser<'_, P>)
        ensures
            r.mesh == self,
            r.current_edge == edge_id,
    {
        MeshTraverser { mesh: self, current_edge: edge_id }
    }

    /// Iterates over the half edges around a face.
    pub fn face_edges(&self, face: u32) -> (r: FaceEdgesIter<'_, P>)
        requires
            face < self.faces@.len(),
        ensures
            r.traverser.mesh == self,
            r.start_edge == self.faces@[face as int],
            r.traverser.current_edge == self.faces@[face as int],
            !r.stop,
            walk_closes(self.half_edges@, self.faces@[face as int] as int) ==> r.walked(0),
    {
        let start_edge = self.faces[face as usize];
        let traverser = self.get_traverser(start_edge);
        FaceEdgesIter { traverser, start_edge, stop: false }
    }

    /// Iterates over the half edges around a vertex.
    pub fn vertex_edges(&self, vertex: u32) -> (r: VertexEdgesIter<'_, P>)
        requires
            vertex < self.verts@.len(),
        ensures
            r.traverser.mesh == self,
            r.start_edge == self.verts@[vertex as int].half_edge,
            r.traverser.current_edge == self.verts@[vertex as int].half_edge,
            !r.stop,
    {
        let start_edge = self.verts[vertex as usize].half_edge;
        let traverser = self.get_traverser(start_edge);
        VertexEdgesIter { traverser, start_edge, stop: false }
    }

    /// Walking along `next` from the stored half edge of every face comes
    /// back to it.
    pub open spec fn faces_close(&self) -> bool {
        forall|f: int|
            0 <= f < self.faces@.len() ==> walk_closes(self.half_edges@, #[trigger] self.faces@[f] as int)
    }

    /// With `next` and `prev` inverse, every face's walk comes back.
    pub proof fn lemma_links_close_faces(&self)
        requires
            self.indices_valid(),
            links_ok(self.half_edges@),
        ensures
            self.faces_close(),
    {
        assert forall|f: int| 0 <= f < self.faces@.len() implies walk_closes(
            self.half_edges@,
            #[trigger] self.faces@[f] as int,
        ) by {
            lemma_orbit_exists(self.half_edges@, self.faces@[f] as int);
        }
    }

    /// What walking round face `f` needs, and that it takes at most as many
    /// steps as there are half edges.
    proof fn lemma_face_walk(&self, f: int)
        requires
            self.indices_valid(),
            self.faces_close(),
            0 <= f < self.faces@.len(),
        ensures
            nexts_in_range(self.half_edges@),
            self.faces@[f] < self.half_edges@.len(),
            walk_closes(self.half_edges@, self.faces@[f] as int),
            orbit_len(self.half_edges@, self.faces@[f] as int) <= self.half_edges@.len(),
    {
        let es = self.half_edges@;
        assert forall|e: int| 0 <= e < es.len() implies #[trigger] es[e].next < es.len() by {
            assert(crate::mesh::edge_in_range(es[e], es.len(), self.faces@.len(), self.verts@.len()));
        }
        let r = self.faces@[f] as int;
        lemma_return_bound(es, r, orbit_len(es, r));
    }

    /// The origins of the half edges around `face`, in the order that
    /// [`Mesh::face_edges`] visits them, at most `limit` of them.
    fn face_origin_list(&self, face: usize, limit: usize) -> (r: Vec<u32>)
        requires
            face < self.faces@.len(),
            self.faces@[face as int] < self.half_edges@.len(),
            nexts_in_range(self.half_edges@),
            walk_closes(self.half_edges@, self.faces@[face as int] as int),
        ensures
            r@ == face_origins(self.half_edges@, self.faces@[face as int] as int).take(
                if limit < orbit_len(self.half_edges@, self.faces@[face as int] as int) {
                    limit as int
                } else {
                    orbit_len(self.half_edges@, self.faces@[face as int] as int) as int
                },
            ),
    {
        let ghost es = self.half_edges@;
        let ghost start = self.faces@[face as int] as int;
        let ghost len = orbit_len(es, start);
        let start_edge = self.faces[face];
        let mut iter = FaceEdgesIter { traverser: self.get_traverser(start_edge), start_edge, stop: false };
        let mut out: Vec<u32> = Vec::new();
        let ghost mut i: nat = 0;
        while out.len() < limit
            invariant
                es == self.half_edges@,
                nexts_in_range(es),
                0 <= start < es.len(),
                returns_at(es, start, len),
                iter.traverser.mesh == self,
                iter.start_edge == start,
                i <= len,
                iter.traverser.current_edge == next_iter(es, start, i),
                iter.stop == (i == len),
                out@.len() == i,
                i <= limit,
                forall|j: int|
                    0 <= j < i ==> #[trigger] out@[j] == es[next_iter(
                        es,
                        start,
                        (j + 1) as nat,
                    )].origin,
            ensures
                i == (if limit < len {
                    limit as nat
                } else {
                    len
                }),
            decreases len - i,
        {
            proof {
                lemma_walk_in_range(es, start, i);
            }
            match iter.next() {
                Some(edge) => {
                    proof {
                        if i + 1 < len {
                            assert(next_iter(es, start, (i + 1) as nat) != start);
                        }
                    }
                    out.push(edge.origin);
                    proof {
                        i = i + 1;
                    }
                },
                None => {
                    break;
                },
            }
        }
        proof {
            let lim = if limit < len { limit as int } else { len as int };
            assert(out@ =~= face_origins(es, start).take(lim));
        }
        out
    }

    /// For each face, the origins of its half edges.
    pub fn face_inds(&self) -> (r: Vec<Vec<u32>>)
        requires
            self.indices_valid(),
            self.faces_close(),
        ensures
            r@.len() == self.faces@.len(),
            forall|f: int|
                0 <= f < self.faces@.len() ==> #[trigger] r@[f]@ == face_origins(
                    self.half_edges@,
                    self.faces@[f] as int,
                ),
    {
        let mut out: Vec<Vec<u32>> = Vec::new();
        let n = self.faces.len();
        for f in 0..n
            invariant
                n == self.faces@.len(),
                self.indices_valid(),
                self.faces_close(),
                out@.len() == f,
                forall|g: int|
                    0 <= g < f ==> #[trigger] out@[g]@ == face_origins(
                        self.half_edges@,
                        self.faces@[g] as int,
                    ),
        {
            proof {
                self.lemma_face_walk(f as int);
                assert(face_origins(self.half_edges@, self.faces@[f as int] as int).len()
                    == orbit_len(self.half_edges@, self.faces@[f as int] as int));
            }
            let _ = self.half_edges.len();
            let row = self.face_origin_list(f, usize::MAX);
            proof {
                assert(row@ =~= face_origins(self.half_edges@, self.faces@[f as int] as int));
            }
            out.push(row);
        }
        out
    }

    /// For each face, the origins of its first three half edges.
    pub fn tri_inds(&self) -> (r: Vec<Vec<u32>>)
        requires
            self.indices_valid(),
            self.faces_close(),
        ensures
            r@.len() == self.faces@.len(),
            forall|f: int|
                0 <= f < self.faces@.len() ==> #[trigger] r@[f]@ == face_origins(
                    self.half_edges@,
                    self.faces@[f] as int,
                ).take(
                    if 3 < orbit_len(self.half_edges@, self.faces@[f] as int) {
                        3
                    } else {
                        orbit_len(self.half_edges@, self.faces@[f] as int) as int
                    },
                ),
    {
        let mut out: Vec<Vec<u32>> = Vec::new();
        let n = self.faces.len();
        for f in 0..n
            invariant
                n == self.faces@.len(),
                self.indices_valid(),
                self.faces_close(),
                out@.len() == f,
                forall|g: int|
                    0 <= g < f ==> #[trigger] out@[g]@ == face_origins(
                        self.half_edges@,
                        self.faces@[g] as int,
                    ).take(
                        if 3 < orbit_len(self.half_edges@, self.faces@[g] as int) {
                            3
                        } else {
                            orbit_len(self.half_edges@, self.faces@[g] as int) as int
                        },
                    ),
        {
            proof {
                self.lemma_face_walk(f as int);
            }
            let row = self.face_origin_list(f, 3);
            out.push(row);
        }
        out
    }

    /// For each face, the number of half edges around it.
    pub fn face_edge_count(&self) -> (r: Vec<usize>)
        requires
            self.indices_valid(),
            self.faces_close(),
        ensures
            r@.len() == self.faces@.len(),
            forall|f: int|
                0 <= f < self.faces@.len() ==> #[trigger] r@[f] == orbit_len(
                    self.half_edges@,
                    self.faces@[f] as int,
                ),
    {
        let mut out: Vec<usize> = Vec::new();
        let n = self.faces.len();
        for f in 0..n
            invariant
                n == self.faces@.len(),
                self.indices_valid(),
                self.faces_close(),
                out@.len() == f,
                forall|g: int|
                    0 <= g < f ==> #[trigger] out@[g] == orbit_len(
                        self.half_edges@,
                        self.faces@[g] as int,
                    ),
        {
            proof {
                self.lemma_face_walk(f as int);
            }
            let _ = self.half_edges.len();
            let row = self.face_origin_list(f, usize::MAX);
            out.push(row.len());
        }
        out
    }
}

} // verus!
