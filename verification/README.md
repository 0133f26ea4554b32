# halfedge

A half-edge polygon mesh library whose connectivity operations are proved
correct with Verus.

A mesh is a list of half edges (origin vertex, twin, face, next, prev), a
face table (one half edge per face) and a vertex table (a position and one
half edge leaving the vertex). Positions are an opaque type parameter: the
library only moves them around.

What is proved, in `src/`:

- building a mesh from a polygon list gives exactly the described half
  edges; from a manifold polygon list (no directed side twice, the sides
  without opposite forming loops) the mesh is well formed, from a closed one
  it also has no border, and reading the faces back gives the polygons;
- cutting a corner off a face keeps the mesh well formed, and triangulating
  every face leaves a well formed mesh of triangles;
- flipping the shared edge of two triangles keeps the links and twins
  consistent and leaves two triangles;
- splitting an edge adds one side to each of its two faces;
- the traversal, text, plane-classification and wireframe-edge functions
  return exactly what their specifications say.

`app/` holds what cannot be verified: floating point geometry (points,
planes, ear clipping), text tables of positions, and the windows that draw
meshes with `three-d` and `winit`.
