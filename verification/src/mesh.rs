use vstd::prelude::*;

use crate::orbit::{is_edge, links_ok};

verus! {

/// One directed side of an edge.
///
/// `origin` is the vertex the half edge leaves from, `twin` the half edge
/// running the other way along the same edge, `face` the face it bounds
/// (`None` on the outer boundary) and `next` / `prev` its neighbours when
/// walking around that face.
#[derive(Debug, Clone, Copy, PartialEq, Eq, Structural)]
pub struct HalfEdge {
    pub origin: u32,
    pub twin: Option<u32>,
    pub face: Option<u32>,
    pub next: u32,
    pub prev: u32,
}

/// A vertex: its position and one half edge that leaves from it.
#[derive(Debug, Clone)]
pub struct Vertex<P> {
    pub coord: P,
    pub half_edge: u32,
}

pub type Verts<P> = Vec<Vertex<P>>;

pub type Faces = Vec<u32>;

pub type HalfEdges = Vec<HalfEdge>;

pub type FaceList = Vec<Vec<u32>>;

/// A polygon mesh in half-edge form.
///
/// `faces[f]` is one half edge of face `f`.
#[derive(Debug, Clone)]
pub struct Mesh<P> {
    pub verts: Vec<Vertex<P>>,
    pub faces: Vec<u32>,
    pub half_edges: Vec<HalfEdge>,
}

/// Coordinates that have a point halfway between two of them.
pub trait Midpoint: Sized {
    fn midpoint(&self, other: &Self) -> Self;
}

pub open spec fn with_next(h: HalfEdge, next: u32) -> HalfEdge {
    HalfEdge { next, ..h }
}

pub open spec fn with_prev(h: HalfEdge, prev: u32) -> HalfEdge {
    HalfEdge { prev, ..h }
}

pub open spec fn with_face(h: HalfEdge, face: Option<u32>) -> HalfEdge {
    HalfEdge { face, ..h }
}

pub open spec fn with_origin(h: HalfEdge, origin: u32) -> HalfEdge {
    HalfEdge { origin, ..h }
}

pub open spec fn with_twin(h: HalfEdge, twin: Option<u32>) -> HalfEdge {
    HalfEdge { twin, ..h }
}

/// Every index stored in `h` points into a mesh of the given sizes.
pub open spec fn edge_in_range(h: HalfEdge, n_edges: nat, n_faces: nat, n_verts: nat) -> bool {
    &&& h.origin < n_verts
    &&& h.next < n_edges
    &&& h.prev < n_edges
    &&& (h.twin matches Some(t) ==> t < n_edges)
    &&& (h.face matches Some(f) ==> f < n_faces)
}

/// The half edge that `[origin, twin, face, next, prev]` describes: the twin
/// is always present and a face of `u32::MAX` stands for no face.
pub open spec fn half_edge_from_array(a: [u32; 5]) -> HalfEdge {
    HalfEdge {
        origin: a@[0],
        twin: Some(a@[1]),
        face: if a@[2] < u32::MAX {
            Some(a@[2])
        } else {
            None
        },
        next: a@[3],
        prev: a@[4],
    }
}

impl HalfEdge {
    pub fn new(origin: u32, twin: Option<u32>, face: Option<u32>, next: u32, prev: u32) -> (r:
        Self)
        ensures
            r == (HalfEdge { origin, twin, face, next, prev }),
    {
        Self { origin, twin, face, next, prev }
    }
}

impl From<[u32; 5]> for HalfEdge {
    fn from(value: [u32; 5]) -> (r: Self) {
        let face = if value[2] < u32::MAX {
            Some(value[2])
        } else {
            None
        };
        HalfEdge { origin: value[0], twin: Some(value[1]), face, next: value[3], prev: value[4] }
    }
}

impl vstd::std_specs::convert::FromSpecImpl<[u32; 5]> for HalfEdge {
    open spec fn obeys_from_spec() -> bool {
        true
    }

    open spec fn from_spec(v: [u32; 5]) -> HalfEdge {
        half_edge_from_array(v)
    }
}

impl<P> Mesh<P> {
    /// All indices stored in the mesh are in range.
    pub open spec fn indices_valid(&self) -> bool {
        let es = self.half_edges@;
        &&& forall|e: int|
            0 <= e < es.len() ==> edge_in_range(
                #[trigger] es[e],
                es.len(),
                self.faces@.len(),
                self.verts@.len(),
            )
        &&& forall|f: int| 0 <= f < self.faces@.len() ==> #[trigger] self.faces@[f] < es.len()
    }

    /// Every half edge has a twin that runs the opposite way.
    #[verifier::opaque]
    pub open spec fn twins_ok(&self) -> bool {
        let es = self.half_edges@;
        forall|e: int|
            #[trigger] is_edge(es, e) ==> {
                &&& es[e].twin is Some
                &&& es[e].twin->0 != e
                &&& es[es[e].twin->0 as int].twin == Some(e as u32)
                &&& es[es[e].twin->0 as int].origin == es[es[e].next as int].origin
            }
    }

    /// The face labels agree with the `next` cycles and with `faces`.
    #[verifier::opaque]
    pub open spec fn faces_ok(&self) -> bool {
        let es = self.half_edges@;
        &&& forall|e: int| #[trigger] is_edge(es, e) ==> es[es[e].next as int].face == es[e].face
        &&& forall|f: int|
            0 <= f < self.faces@.len() ==> es[#[trigger] self.faces@[f] as int].face == Some(
                f as u32,
            )
    }

    /// Every vertex that some half edge leaves from points back to a half
    /// edge leaving from it.
    #[verifier::opaque]
    pub open spec fn verts_ok(&self) -> bool {
        let es = self.half_edges@;
        forall|e: int|
            #[trigger] is_edge(es, e) ==> {
                let v = es[e].origin as int;
                &&& self.verts@[v].half_edge < es.len()
                &&& es[self.verts@[v].half_edge as int].origin == es[e].origin
            }
    }

    /// Indices in range, `next` and `prev` inverse to each other, twins
    /// paired.
    pub open spec fn connected(&self) -> bool {
        &&& self.indices_valid()
        &&& links_ok(self.half_edges@)
        &&& self.twins_ok()
    }

    /// A well formed half-edge mesh.
    pub open spec fn wf(&self) -> bool {
        &&& self.connected()
        &&& self.faces_ok()
        &&& self.verts_ok()
    }

    /// What [`Mesh::faces_ok`] says of one face.
    pub proof fn lemma_face_label(&self, g: int)
        requires
            self.faces_ok(),
            0 <= g < self.faces@.len(),
        ensures
            self.half_edges@[self.faces@[g] as int].face == Some(g as u32),
    {
        reveal(Mesh::faces_ok);
    }

    pub fn verts(&self) -> (r: &Vec<Vertex<P>>)
        ensures
            r == &self.verts,
    {
        &self.verts
    }

    pub fn faces(&self) -> (r: &Vec<u32>)
        ensures
            r@ == self.faces@,
    {
        &self.faces
    }

    pub fn half_edges(&self) -> (r: &Vec<HalfEdge>)
        ensures
            r@ == self.half_edges@,
    {
        &self.half_edges
    }
}

} // verus!
